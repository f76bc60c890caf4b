use clipd::state::{pause_expired, DaemonState, NANOS_PER_SEC};

const SEC: u128 = NANOS_PER_SEC;

#[test]
fn pause_expires_only_at_its_deadline() {
    let now: u128 = 1_000 * SEC;
    assert!(!pause_expired(None, now));
    assert!(!pause_expired(Some(now + SEC), now));
    assert!(pause_expired(Some(now), now));
    assert!(pause_expired(Some(now - SEC), now));
}

#[test]
fn pause_and_resume_drive_the_plasma_binding() {
    let mut st = DaemonState::new(200, "Meta+Shift+V".to_string());
    assert!(!st.is_paused());
    assert_eq!(st.pause_remaining_secs(0), None);

    let mut calls: Vec<(bool, String)> = Vec::new();
    st.pause_for(15 * 60 * SEC, 10 * SEC, |e, s| {
        calls.push((e, s));
        Ok(())
    })
    .unwrap();
    assert!(st.is_paused());
    assert_eq!(calls, vec![(false, "Meta+Shift+V".to_string())]);
    // 15 minutes from t=10s, asked at t=10s + 0.5s: 899.5s left, rounded up.
    assert_eq!(st.pause_remaining_secs(10 * SEC + SEC / 2), Some(900));
    assert_eq!(st.pause_remaining_secs(10 * SEC + 60 * SEC), Some(840));
    assert_eq!(st.pause_remaining_secs(2_000 * SEC), Some(0));

    // Not expired yet: nothing is called.
    let r = st.resume_if_expired(20 * SEC, |_, _| panic!("must not bind"));
    assert_eq!(r, Ok(false));
    assert!(st.is_paused());

    // A failing Plasma call keeps the pause.
    let r = st.resume_if_expired(910 * SEC, |_, _| Err("busy".to_string()));
    assert_eq!(r, Err("busy".to_string()));
    assert!(st.is_paused());

    let mut seen = None;
    let r = st.resume_if_expired(910 * SEC, |e, s| {
        seen = Some((e, s));
        Ok(())
    });
    assert_eq!(r, Ok(true));
    assert!(!st.is_paused());
    assert_eq!(seen, Some((true, "Meta+Shift+V".to_string())));
}

#[test]
fn shortcut_changes_follow_the_pause() {
    let mut st = DaemonState::new(5, "Meta+V".to_string());
    let mut seen = None;
    st.set_shortcut("Ctrl+D", |e, s| {
        seen = Some((e, s));
        Ok(())
    })
    .unwrap();
    assert_eq!(seen, Some((true, "Ctrl+D".to_string())));
    assert_eq!(st.shortcut(), "Ctrl+D");

    st.pause_for(SEC, 0, |_, _| Ok(())).unwrap();
    st.set_shortcut("Ctrl+E", |e, _| {
        assert!(!e);
        Ok(())
    })
    .unwrap();
    assert_eq!(st.shortcut(), "Ctrl+E");

    assert!(st.set_shortcut("Ctrl+F", |_, _| Err("refused".into())).is_err());
    assert_eq!(st.shortcut(), "Ctrl+E");

    assert!(st.resume(|_, _| Err("no".into())).is_err());
    assert!(st.is_paused());
    st.resume(|e, _| {
        assert!(e);
        Ok(())
    })
    .unwrap();
    assert!(!st.is_paused());

    st.set_watching(true);
    st.set_max_items(9);
    assert!(st.watching());
    assert_eq!(st.max_items(), 9);
}

#[test]
fn countdown_reaches_zero_exactly_at_the_deadline() {
    let mut st = DaemonState::new(200, "Meta+Shift+V".to_string());
    st.pause_for(90 * SEC, 0, |_, _| Ok(())).unwrap();
    let mut last = u64::MAX;
    for t in [0, 1, SEC - 1, SEC, 30 * SEC + 1, 89 * SEC, 90 * SEC - 1, 90 * SEC, 91 * SEC] {
        let left = st.pause_remaining_secs(t).unwrap();
        assert!(left <= last);
        assert_eq!(left == 0, pause_expired(Some(90 * SEC), t));
        last = left;
    }
    assert_eq!(st.pause_remaining_secs(90 * SEC - 1), Some(1));
    assert_eq!(st.pause_remaining_secs(90 * SEC), Some(0));
}
