use clipd::install::{binary_copy, ensure_not_stale_shadow, service_unit, BinaryCopy};
use clipd::popup::{
    clamp_selection, filtered_indices, keyboard_selection, pause_banner, row_label, select_next,
    select_prev, shown_shortcut,
};
use clipd::store::{ItemMeta, Kind};
use clipd::tray::{icon_name, pause_menu_label, tooltip_description, PAUSE_MINUTES};

fn item(kind: Kind, mime: &str, preview: &str, size: i64) -> ItemMeta {
    ItemMeta {
        id: 1,
        kind,
        mime: mime.into(),
        created_at: 0,
        last_used_at: 0,
        size,
        preview: preview.into(),
        thumb: None,
    }
}

#[test]
fn filter_matches_preview_mime_and_kind_ignoring_case() {
    let items = vec![
        item(Kind::Text, "text/plain", "Hello World", 11),
        item(Kind::Image, "image/PNG", "", 2048),
        item(Kind::Text, "text/html", "<b>bold</b>", 11),
    ];
    assert_eq!(filtered_indices(&items, ""), vec![0, 1, 2]);
    assert_eq!(filtered_indices(&items, "HELLO"), vec![0]);
    assert_eq!(filtered_indices(&items, "png"), vec![1]);
    assert_eq!(filtered_indices(&items, "image"), vec![1]);
    assert_eq!(filtered_indices(&items, "text"), vec![0, 2]);
    assert!(filtered_indices(&items, "nothing").is_empty());
}

#[test]
fn rows_show_previews_or_image_sizes() {
    assert_eq!(row_label(&item(Kind::Text, "text/plain", "hi", 2)), "hi");
    assert_eq!(row_label(&item(Kind::Text, "text/plain", "", 0)), "(empty text)");
    assert_eq!(row_label(&item(Kind::Image, "image/png", "", 5000)), "image/png · 4 KB");
    assert_eq!(row_label(&item(Kind::Image, "image/png", "", -3000)), "image/png · -2 KB");
}

#[test]
fn keyboard_selection_stays_in_the_list() {
    assert_eq!(select_next(0, 3), 1);
    assert_eq!(select_next(2, 3), 2);
    assert_eq!(select_prev(0), 0);
    assert_eq!(select_prev(2), 1);
    assert_eq!(clamp_selection(5, 3), 2);
    assert_eq!(clamp_selection(5, 0), 5);
    assert_eq!(clamp_selection(1, 3), 1);
}

#[test]
fn tray_and_banner_show_the_countdown() {
    assert_eq!(icon_name(true), "media-playback-pause");
    assert_eq!(icon_name(false), "edit-paste");
    assert_eq!(
        tooltip_description("Meta+V", Some(125)),
        "Shortcut paused: Meta+V (2m 05s remaining)"
    );
    assert_eq!(tooltip_description("Meta+V", None), "History shortcut: Meta+V");
    assert_eq!(pause_banner(3600), "Shortcut paused — apps own it for 60m 00s");
    assert_eq!(PAUSE_MINUTES, [5, 15, 30, 60]);
    assert_eq!(pause_menu_label(15), "Pause shortcut for 15m");
}

#[test]
fn install_refuses_stale_binaries_and_picks_the_copy() {
    assert!(ensure_not_stale_shadow("/a", None, false, Some(1), Some(2)).is_ok());
    assert!(ensure_not_stale_shadow("/a", Some("/b"), true, Some(1), Some(2)).is_ok());
    assert!(ensure_not_stale_shadow("/a", Some("/b"), false, Some(2), Some(1)).is_ok());
    assert!(ensure_not_stale_shadow("/a", Some("/b"), false, None, Some(1)).is_ok());
    assert_eq!(
        ensure_not_stale_shadow("/a", Some("/b"), false, Some(1), Some(2)),
        Err("refusing install from stale binary.\nRan:    /a\nNewer:  /b\nFix:    /b install".to_string())
    );
    assert_eq!(binary_copy(false, None, None), BinaryCopy::FromRunning);
    assert_eq!(binary_copy(true, Some(1), Some(2)), BinaryCopy::FromCargo);
    assert_eq!(binary_copy(true, Some(2), Some(1)), BinaryCopy::Keep);
    assert_eq!(binary_copy(true, None, Some(1)), BinaryCopy::Keep);
    let unit = service_unit("/home/u/.local/bin/clipd");
    assert!(unit.contains("ExecStart=/home/u/.local/bin/clipd daemon\n"));
    assert!(unit.starts_with("[Unit]\n"));
}

#[test]
fn settings_start_from_the_reported_chord() {
    assert_eq!(shown_shortcut("Ctrl+D".into(), Some("Meta+V".into())), "Ctrl+D");
    assert_eq!(shown_shortcut(String::new(), Some("Meta+V".into())), "Meta+V");
    assert_eq!(shown_shortcut(String::new(), None), "Meta+Shift+V");
}

#[test]
fn a_frame_of_arrow_keys_keeps_the_selection_on_a_row() {
    assert_eq!(keyboard_selection(0, 3, true, false), 1);
    assert_eq!(keyboard_selection(2, 3, true, false), 2);
    assert_eq!(keyboard_selection(7, 3, false, false), 2);
    assert_eq!(keyboard_selection(7, 3, false, true), 1);
    assert_eq!(keyboard_selection(1, 3, true, true), 1);
    assert_eq!(keyboard_selection(0, 1, true, true), 0);
    assert_eq!(keyboard_selection(4, 0, true, true), 4);
}
