use clipd::clipboard::{probe_type, read_clipboard, wants_no_newline, ClipboardStep, PROBE_COUNT};
use clipd::daemon::{config_update, ingest_kind, pause_duration, status_reply, MAX_CLIP_BYTES};
use clipd::ipc::{list, ok_reply, pause, select, set_config, set_window_size, status, ListMsg, OkMsg, StatusMsg};
use clipd::paste::{inject_paste, ToolOutcome};
use clipd::state::{DaemonState, NANOS_PER_SEC};
use clipd::store::Kind;

fn sample_status(pause: Option<u64>) -> StatusMsg {
    StatusMsg {
        ok: true,
        items: 2,
        watching: true,
        pause_remaining_secs: pause,
        max_items: 200,
        shortcut: "Meta+V".into(),
    }
}

#[test]
fn status_line_lists_every_field() {
    assert_eq!(
        status(&sample_status(None)),
        "ok=true items=2 watching=true max_items=200 shortcut=Meta+V"
    );
    assert_eq!(
        status(&sample_status(Some(61))),
        "ok=true items=2 watching=true max_items=200 shortcut=Meta+V paused=61s"
    );
    let mut s = sample_status(None);
    s.ok = false;
    s.watching = false;
    s.items = 0;
    assert_eq!(
        status(&s),
        "ok=false items=0 watching=false max_items=200 shortcut=Meta+V"
    );
}

#[test]
fn refused_requests_carry_the_daemon_error() {
    let refused = ok_reply(Err("no such entry".into()));
    assert!(!refused.ok);
    assert_eq!(select(refused), Err("no such entry".to_string()));
    assert_eq!(pause(ok_reply(Ok(()))), Ok(()));
    let bare = || OkMsg { ok: false, error: None };
    assert_eq!(select(bare()), Err("select failed".to_string()));
    assert_eq!(pause(bare()), Err("pause failed".to_string()));
    assert_eq!(set_config(bare()), Err("set_config failed".to_string()));
    assert_eq!(set_window_size(bare()), Err("set_window_size failed".to_string()));
    assert_eq!(
        list(ListMsg { ok: false, items: vec![] }).err(),
        Some("list failed".to_string())
    );
    assert!(list(ListMsg { ok: true, items: vec![] }).unwrap().is_empty());
}

#[test]
fn daemon_status_reflects_its_state() {
    let mut st = DaemonState::new(200, "Meta+V".into());
    st.set_watching(true);
    let m = status_reply(&st, 5, 0);
    assert!(m.ok && m.watching);
    assert_eq!((m.items, m.max_items, m.shortcut.as_str()), (5, 200, "Meta+V"));
    assert_eq!(m.pause_remaining_secs, None);
    st.pause_for(60 * NANOS_PER_SEC, 0, |_, _| Ok(())).unwrap();
    assert_eq!(status_reply(&st, 5, NANOS_PER_SEC).pause_remaining_secs, Some(59));
}

#[test]
fn pause_requests_and_settings_are_normalised() {
    assert_eq!(pause_duration(0), None);
    assert_eq!(pause_duration(15), Some(15 * 60 * NANOS_PER_SEC));
    assert!(pause_duration(u32::MAX).is_some());

    let u = config_update(Some(0), Some("  Ctrl+D \n".into()));
    assert_eq!(u.max_items, Some(1));
    assert_eq!(u.shortcut.as_deref(), Some("Ctrl+D"));
    let u = config_update(Some(50), Some("   ".into()));
    assert_eq!(u.max_items, Some(50));
    assert_eq!(u.shortcut, None);
    let u = config_update(None, None);
    assert_eq!((u.max_items, u.shortcut), (None, None));
}

#[test]
fn clipboard_prefers_text_then_images_in_order() {
    assert_eq!(PROBE_COUNT, 5);
    let types: Vec<&str> = (0..PROBE_COUNT).map(probe_type).collect();
    assert_eq!(types, vec!["text", "image/png", "image/jpeg", "image/bmp", "image/webp"]);

    match read_clipboard(0, Some(b"hi".to_vec())) {
        ClipboardStep::Found(m, d) => assert_eq!((m.as_str(), d.as_slice()), ("text/plain", &b"hi"[..])),
        _ => panic!("text expected"),
    }
    assert!(matches!(read_clipboard(0, Some(vec![])), ClipboardStep::Next(1)));
    assert!(matches!(read_clipboard(1, None), ClipboardStep::Next(2)));
    match read_clipboard(2, Some(vec![1])) {
        ClipboardStep::Found(m, _) => assert_eq!(m, "image/jpeg"),
        _ => panic!("jpeg expected"),
    }
    assert!(matches!(read_clipboard(4, None), ClipboardStep::Empty));

    assert!(wants_no_newline("text"));
    assert!(wants_no_newline("text/html"));
    assert!(!wants_no_newline("image/png"));
    assert!(!wants_no_newline("tex"));
}

#[test]
fn ingest_records_images_by_mime_and_skips_oversized() {
    assert_eq!(ingest_kind("image/png", 10), Some(Kind::Image));
    assert_eq!(ingest_kind("text/plain", 10), Some(Kind::Text));
    assert_eq!(ingest_kind("image/png", MAX_CLIP_BYTES), Some(Kind::Image));
    assert_eq!(ingest_kind("text/plain", MAX_CLIP_BYTES + 1), None);
}

#[test]
fn paste_tries_wtype_then_ydotool() {
    assert_eq!(inject_paste(ToolOutcome::Pasted, ToolOutcome::Missing), Ok(()));
    assert_eq!(
        inject_paste(ToolOutcome::Failed("exit 1".into()), ToolOutcome::Pasted),
        Ok(())
    );
    assert_eq!(
        inject_paste(ToolOutcome::Failed("exit 1".into()), ToolOutcome::Failed("exit 2".into())),
        Err("wtype: exit 1; ydotool: exit 2".to_string())
    );
    assert_eq!(
        inject_paste(ToolOutcome::Missing, ToolOutcome::Failed("spawn".into())),
        Err("ydotool: spawn".to_string())
    );
    assert_eq!(
        inject_paste(ToolOutcome::Missing, ToolOutcome::Missing),
        Err("neither wtype nor ydotool found — install one to paste on select".to_string())
    );
}
