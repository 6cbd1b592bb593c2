use cordis::timer::{schedule_latest, Debouncer, Throttler, TimerAction, TimerError};

#[test]
fn debounce_keeps_only_the_latest_value() {
    let mut debouncer = Debouncer::new();
    let mut values = Vec::new();
    assert!(matches!(debouncer.next(), TimerAction::Wait));
    debouncer.call(true, 1).unwrap();
    assert!(matches!(debouncer.next(), TimerAction::Sleep));
    debouncer.call(true, 2).unwrap();
    assert!(matches!(debouncer.next(), TimerAction::Sleep));
    assert!(values.is_empty());
    if let TimerAction::Deliver(value) = debouncer.elapsed() {
        values.push(value);
    }
    assert_eq!(values, vec![2]);
    assert!(matches!(debouncer.elapsed(), TimerAction::Wait));

    assert_eq!(debouncer.call(false, 3), Err(TimerError::ContextDisposed));
    assert!(debouncer.pending.is_none());
}

#[test]
fn throttle_runs_leading_and_latest_trailing_values() {
    let mut throttler = Throttler::new();
    let mut values = Vec::new();
    throttler.call(true, 1).unwrap();
    if let TimerAction::Deliver(value) = throttler.next() {
        values.push(value);
    }
    throttler.call(true, 2).unwrap();
    throttler.call(true, 3).unwrap();
    assert!(matches!(throttler.next(), TimerAction::Sleep));
    assert_eq!(values, vec![1]);
    throttler.rested();
    if let TimerAction::Deliver(value) = throttler.next() {
        values.push(value);
    }
    assert_eq!(values, vec![1, 3]);
    throttler.rested();
    assert!(matches!(throttler.next(), TimerAction::Sleep));
    throttler.rested();
    assert!(matches!(throttler.next(), TimerAction::Wait));

    assert_eq!(throttler.call(false, 4), Err(TimerError::ContextDisposed));
}

#[test]
fn timer_errors_are_described() {
    let mut pending = Some(1);
    assert_eq!(
        schedule_latest(false, &mut pending, 2).unwrap_err().message(),
        "timer context was disposed"
    );
    assert_eq!(pending, Some(1));
    schedule_latest(true, &mut pending, 2).unwrap();
    assert_eq!(pending, Some(2));
    assert_eq!(
        TimerError::Cleanup("x".to_owned()).message(),
        "timer cleanup failed: x"
    );
}
