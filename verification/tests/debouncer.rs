use onair_bot::debounce::Debouncer;

#[test]
fn debouncer_with_threshold_one_commits_immediately() {
    let mut debouncer = Debouncer::new(false, 1);
    assert_eq!(debouncer.observe(true), Some(true));
    assert_eq!(debouncer.observe(false), Some(false));
}

#[test]
fn debouncer_ignores_a_single_poll_flicker() {
    let mut debouncer = Debouncer::new(false, 2);
    // A one-poll probe spike does not reach the threshold.
    assert_eq!(debouncer.observe(true), None);
    assert_eq!(debouncer.observe(false), None);
    assert!(!debouncer.state());
}

#[test]
fn debouncer_commits_a_sustained_change() {
    let mut debouncer = Debouncer::new(false, 3);
    assert_eq!(debouncer.observe(true), None);
    assert_eq!(debouncer.observe(true), None);
    assert_eq!(debouncer.observe(true), Some(true));
    assert!(debouncer.state());
    // Further identical readings produce no new transition.
    assert_eq!(debouncer.observe(true), None);
}

#[test]
fn debouncer_resets_pending_count_when_reading_flips_back() {
    let mut debouncer = Debouncer::new(false, 3);
    assert_eq!(debouncer.observe(true), None);
    assert_eq!(debouncer.observe(true), None);
    // Flip back to the committed state: the pending streak is cleared.
    assert_eq!(debouncer.observe(false), None);
    assert_eq!(debouncer.observe(true), None);
    assert_eq!(debouncer.observe(true), None);
    assert_eq!(debouncer.observe(true), Some(true));
}

#[test]
fn debouncer_zero_threshold_acts_as_one() {
    let mut debouncer = Debouncer::new(true, 0);
    assert_eq!(debouncer.observe(false), Some(false));
    assert!(!debouncer.state());
}

#[test]
fn debouncer_agreeing_readings_report_nothing() {
    let mut debouncer = Debouncer::new(true, 2);
    for _ in 0..5 {
        assert_eq!(debouncer.observe(true), None);
    }
    assert!(debouncer.state());
}

#[test]
fn debouncer_sustained_change_commits_from_any_streak() {
    // Threshold readings in a row commit, whatever came before.
    let mut debouncer = Debouncer::new(false, 4);
    assert_eq!(debouncer.observe(true), None);
    assert_eq!(debouncer.observe(false), None);
    let mut reports = Vec::new();
    for _ in 0..4 {
        reports.push(debouncer.observe(true));
    }
    assert_eq!(reports, [None, None, None, Some(true)]);
    assert!(debouncer.state());
}

#[test]
fn debouncer_short_flicker_below_threshold_never_commits() {
    let mut debouncer = Debouncer::new(true, 5);
    for _ in 0..4 {
        assert_eq!(debouncer.observe(false), None);
    }
    assert!(debouncer.state());
}

#[test]
fn debouncer_commits_back_and_forth() {
    let mut debouncer = Debouncer::new(false, 2);
    assert_eq!(debouncer.observe(true), None);
    assert_eq!(debouncer.observe(true), Some(true));
    assert_eq!(debouncer.observe(false), None);
    assert_eq!(debouncer.observe(false), Some(false));
    assert!(!debouncer.state());
}

#[test]
fn debouncer_state_is_the_last_reported_change() {
    let readings = [true, true, false, true, true, true, false, false, false, true];
    let mut debouncer = Debouncer::new(false, 2);
    let mut expected = false;
    for reading in readings {
        if let Some(b) = debouncer.observe(reading) {
            expected = b;
        }
        assert_eq!(debouncer.state(), expected);
    }
}

#[test]
fn debouncer_reports_exactly_when_the_last_readings_agree() {
    let readings = [true, false, true, true, true, false, false, true, false, false, false];
    let k = 3;
    let mut debouncer = Debouncer::new(false, k as u32);
    for n in 0..readings.len() {
        let before = debouncer.state();
        let reading = readings[n];
        let agree = n + 1 >= k && readings[n + 1 - k..=n].iter().all(|&r| r == reading);
        let expected = if reading != before && agree { Some(reading) } else { None };
        assert_eq!(debouncer.observe(reading), expected, "at reading {n}");
    }
}

#[test]
fn debouncer_extreme_thresholds_never_overflow() {
    let mut debouncer = Debouncer::new(false, u32::MAX);
    for _ in 0..1000 {
        assert_eq!(debouncer.observe(true), None);
    }
    assert!(!debouncer.state());
}
