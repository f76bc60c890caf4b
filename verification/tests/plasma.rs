use clipd::plasma::{
    foreign_keys_outcome, owner_refusal, set_keys_outcome,
    desktop_body, keys_arg, keys_refused, parse_qt_shortcut, parse_shortcut_conflict,
    patch_desktop_shortcut, patch_shortcutsrc, placement_script, quoted_fields, shortcut_fallback, shortcut_plan,
    FallbackStep, ShortcutErrorKind, ALT_BIT, CTRL_BIT, META_BIT, SHIFT_BIT,
};

#[test]
fn parses_supported_shortcuts() {
    assert_eq!(
        parse_qt_shortcut("Meta+V").unwrap(),
        vec![0x1000_0000 | i32::from(b'V')]
    );
    assert_eq!(
        parse_qt_shortcut("shift+ctrl+7").unwrap(),
        vec![0x0200_0000 | 0x0400_0000 | i32::from(b'7')]
    );
}

#[test]
fn rejects_ambiguous_or_unsupported_shortcuts() {
    assert!(parse_qt_shortcut("V").is_err());
    assert!(parse_qt_shortcut("Meta+A+B").is_err());
    assert!(parse_qt_shortcut("Meta+F12").is_err());
    assert!(parse_qt_shortcut("Meta+/").is_err());
}

#[test]
fn patches_both_plasma_sections_without_corrupting_others() {
    let input = "[General]\nfoo=bar\n[services][clipd-show.desktop]\nold=value\n_launch=old\n[Other]\nkeep=yes\n";
    let output = patch_shortcutsrc(input, "Meta+V,none,clipd History");

    assert!(output.contains("[General]\nfoo=bar"));
    assert!(output.contains("[Other]\nkeep=yes"));
    assert!(output.contains(
        "[services][clipd-show.desktop]\nold=value\n_launch=Meta+V,none,clipd History"
    ));
    assert!(output.contains("[clipd-show.desktop]\n_launch=Meta+V,none,clipd History"));
    assert_eq!(output.matches("_launch=Meta+V,none,clipd History").count(), 2);
}

#[test]
fn detects_other_shortcut_owner_but_ignores_clipd() {
    let conflict = "([('Show Desktop', 'Peek at Desktop', 'kwin', 'KWin', 'default', 'Default Context', [268435524], [268435524]), ('_launch', 'clipd History', 'clipd-show.desktop', 'clipd History', 'default', 'Default Context', [268435524], [67108932])],)";
    assert_eq!(
        parse_shortcut_conflict(conflict).as_deref(),
        Some("KWin — Peek at Desktop")
    );

    let ours = "([('_launch', 'clipd History', 'clipd-show.desktop', 'clipd History', 'default', 'Default Context', [268435542], [268435542])],)";
    assert_eq!(parse_shortcut_conflict(ours), None);
}

#[test]
fn chord_modifiers_are_case_insensitive_and_aliased() {
    let meta = META_BIT | i32::from(b'D');
    for chord in ["Meta+D", "META+d", "super+D", "Win+d", "mod4+D", " meta + d "] {
        assert_eq!(parse_qt_shortcut(chord).unwrap(), vec![meta], "{chord}");
    }
    assert_eq!(
        parse_qt_shortcut("Control+Alt+Shift+x").unwrap(),
        vec![CTRL_BIT | ALT_BIT | SHIFT_BIT | i32::from(b'X')]
    );
    assert_eq!(
        parse_qt_shortcut("Ctrl+Ctrl+1").unwrap(),
        vec![CTRL_BIT | i32::from(b'1')]
    );
}

#[test]
fn chord_errors_name_their_reason() {
    let e = parse_qt_shortcut("Meta++V").unwrap_err();
    assert_eq!(e.kind, ShortcutErrorKind::Invalid);
    assert_eq!(e.message(), "invalid shortcut `Meta++V`");

    let e = parse_qt_shortcut("Meta+A+B").unwrap_err();
    assert_eq!(e.kind, ShortcutErrorKind::MultipleKeys);
    assert_eq!(e.message(), "shortcut must contain exactly one key");

    let e = parse_qt_shortcut("Meta+/").unwrap_err();
    assert_eq!(e.kind, ShortcutErrorKind::KeyNotAlnum);
    assert_eq!(e.message(), "shortcut key must be an ASCII letter or digit");

    let e = parse_qt_shortcut("Meta+ F12 ").unwrap_err();
    assert_eq!(e.kind, ShortcutErrorKind::Unsupported);
    assert_eq!(
        e.message(),
        "unsupported shortcut part `F12`; use modifiers plus one ASCII letter or digit"
    );

    let e = parse_qt_shortcut("V").unwrap_err();
    assert_eq!(e.kind, ShortcutErrorKind::NoModifier);
    assert_eq!(e.message(), "shortcut must contain at least one modifier");

    let e = parse_qt_shortcut("Meta+Shift").unwrap_err();
    assert_eq!(e.kind, ShortcutErrorKind::NoKey);

    // Non-ASCII single characters are not keys.
    let e = parse_qt_shortcut("Meta+é").unwrap_err();
    assert_eq!(e.kind, ShortcutErrorKind::Unsupported);

    // The first refused part decides, even before a missing modifier.
    let e = parse_qt_shortcut("Q+").unwrap_err();
    assert_eq!(e.kind, ShortcutErrorKind::Invalid);
    assert!(parse_qt_shortcut("").is_err());
}

#[test]
fn quoted_fields_follow_escapes_and_open_fields() {
    let f = quoted_fields(r"x 'a\'b' y 'c\\d' 'open");
    assert_eq!(f, vec!["a'b".to_string(), "c\\d".to_string(), "open".to_string()]);
    assert!(quoted_fields("no quotes here").is_empty());
    assert_eq!(quoted_fields("'trailing\\"), vec!["trailing".to_string()]);
}

#[test]
fn incomplete_action_groups_are_ignored() {
    assert_eq!(parse_shortcut_conflict("('a', 'b', 'kwin', 'KWin', 'x')"), None);
}

#[test]
fn shortcutsrc_gets_sections_appended_and_mangled_group_removed() {
    let input = "[General]\nfoo=bar\n[services\\x5d\\x5bclipd-show.desktop]\n_launch=junk\n[Other]\nkeep=yes";
    let out = patch_shortcutsrc(input, "none,none,clipd History");
    assert_eq!(
        out,
        "[General]\nfoo=bar\n[Other]\nkeep=yes\n\n[services][clipd-show.desktop]\n_launch=none,none,clipd History\n\n[clipd-show.desktop]\n_launch=none,none,clipd History\n"
    );
    let again = patch_shortcutsrc(&out, "Meta+V,none,clipd History");
    assert_eq!(again.matches("_launch=").count(), 2);
    assert_eq!(patch_shortcutsrc("", "x"), "[services][clipd-show.desktop]\n_launch=x\n\n[clipd-show.desktop]\n_launch=x\n");
}

#[test]
fn shortcutsrc_inserts_launch_after_header_when_missing() {
    let input = "[clipd-show.desktop]\nName=foo\r\n[services][clipd-show.desktop]\n  _launch=old\n";
    let out = patch_shortcutsrc(input, "L");
    assert_eq!(
        out,
        "[clipd-show.desktop]\n_launch=L\nName=foo\n[services][clipd-show.desktop]\n_launch=L\n"
    );
}

#[test]
fn desktop_files_get_the_chord() {
    let body = desktop_body("/home/u/.local/bin/clipd", "Meta+Shift+V");
    assert!(body.starts_with("[Desktop Entry]\n"));
    assert!(body.contains("Exec=/home/u/.local/bin/clipd show\n"));
    assert!(body.ends_with("X-KDE-Shortcuts=Meta+Shift+V\n"));

    let patched = patch_desktop_shortcut(&body, "");
    assert!(patched.ends_with("X-KDE-Shortcuts=\n"));
    assert_eq!(
        patch_desktop_shortcut("a=1\nX-KDE-Shortcuts=old\nb=2\n", "Ctrl+Alt+V"),
        "a=1\nX-KDE-Shortcuts=Ctrl+Alt+V\nb=2\n"
    );
    assert_eq!(patch_desktop_shortcut("a=1", "M"), "a=1\nX-KDE-Shortcuts=M\n");
    assert_eq!(patch_desktop_shortcut("a=1\n", "M"), "a=1\nX-KDE-Shortcuts=M\n");
    assert_eq!(patch_desktop_shortcut("X-KDE-Shortcuts=z", "M"), "X-KDE-Shortcuts=M");
}

#[test]
fn binding_plans_and_key_arguments() {
    let on = shortcut_plan(true, "Meta+V").unwrap();
    assert_eq!(on.keys, vec![META_BIT | i32::from(b'V')]);
    assert_eq!(on.launch, "Meta+V,none,clipd History");
    assert_eq!(on.desktop_value, "Meta+V");
    let off = shortcut_plan(false, "not a chord").unwrap();
    assert!(off.keys.is_empty());
    assert_eq!(off.launch, "none,none,clipd History");
    assert_eq!(off.desktop_value, "");
    assert!(shortcut_plan(true, "not a chord").is_err());

    assert_eq!(keys_arg(&[]), "@a(ai) []");
    assert_eq!(keys_arg(&[268435542]), "@a(ai) [([268435542, 0, 0, 0],)]");
    assert_eq!(keys_arg(&[1, -2]), "@a(ai) [([1, 0, 0, 0],), ([-2, 0, 0, 0],)]");
    assert!(keys_refused(&[1], "(@a(ai) [],)"));
    assert!(!keys_refused(&[], "(@a(ai) [],)"));
    assert!(!keys_refused(&[1], "([([1, 0, 0, 0],)],)"));
}

#[test]
fn fallback_only_when_the_chord_is_not_the_default() {
    assert_eq!(shortcut_fallback("Meta+Shift+V"), FallbackStep::KeepWithoutShortcut);
    assert_eq!(shortcut_fallback("Ctrl+D"), FallbackStep::UseDefault);
}

#[test]
fn placement_script_forces_the_size_only_when_given() {
    let forced = placement_script(Some((560, 480)));
    assert!(forced.starts_with(
        "(function () {\n    var FORCE_SIZE = true;\n    var WANT_W = 560;\n    var WANT_H = 480;\n    function place(w) {\n"
    ));
    assert!(forced.contains("var winH = FORCE_SIZE ? (WANT_H + 36) : g.height;"));
    assert!(forced.ends_with("        if (place(list[i])) return;\n    }\n})();\n"));

    let free = placement_script(None);
    assert!(free.starts_with(
        "(function () {\n    var FORCE_SIZE = false;\n    var WANT_W = 0;\n    var WANT_H = 0;\n"
    ));
    assert_eq!(free.len() + 3, forced.len());
}

#[test]
fn chords_with_the_same_parts_parse_alike() {
    let canonical = parse_qt_shortcut("Meta+Shift+V").unwrap();
    assert_eq!(parse_qt_shortcut(" super + shift + v ").unwrap(), canonical);
    assert_eq!(parse_qt_shortcut("v+SHIFT+win").unwrap(), canonical);
    assert_eq!(parse_qt_shortcut("Meta+Mod4+Shift+Shift+V").unwrap(), canonical);
    assert_eq!(
        parse_qt_shortcut("control+alt+d").unwrap(),
        parse_qt_shortcut("Alt+Ctrl+D").unwrap()
    );
    assert!(parse_qt_shortcut("Meta+V+V").is_err());
    assert!(parse_qt_shortcut("V+V+Meta").is_err());
}

#[test]
fn patching_twice_changes_nothing() {
    for input in [
        "",
        "[General]\nfoo=bar\n",
        "[General]\nfoo=bar\n[services][clipd-show.desktop]\nold=value\n_launch=old\n[Other]\nkeep=yes\n",
        "[services\\x5d\\x5bclipd-show.desktop]\n_launch=x\n[clipd-show.desktop]\nkey=1\n",
    ] {
        let once = patch_shortcutsrc(input, "Meta+V,none,clipd History");
        let twice = patch_shortcutsrc(&once, "Meta+V,none,clipd History");
        assert_eq!(once, twice);
        assert!(once.ends_with('\n'));
        assert!(!once.contains("[services\\x5d\\x5bclipd-show.desktop]"));
    }
}

#[test]
fn live_binding_refusals_name_their_cause() {
    assert_eq!(owner_refusal("Meta+V", None), None);
    assert_eq!(
        owner_refusal("Meta+V", Some("KWin — Peek at Desktop".into())),
        Some("shortcut `Meta+V` is already used by KWin — Peek at Desktop".to_string())
    );
    let keys = [0x1000_0000 | 86];
    assert_eq!(set_keys_outcome(&keys, "Meta+V", true, "([[268435542]],)", ""), Ok(()));
    assert_eq!(
        set_keys_outcome(&keys, "Meta+V", true, "(@a(ai) [],)", ""),
        Err("shortcut `Meta+V` is already used by another Plasma action".to_string())
    );
    assert_eq!(set_keys_outcome(&[], "Meta+V", true, "(@a(ai) [],)", ""), Ok(()));
    assert_eq!(
        set_keys_outcome(&keys, "Meta+V", false, "", " no bus \n"),
        Err("gdbus setShortcutKeys failed: no bus".to_string())
    );
    assert_eq!(foreign_keys_outcome(true, "x"), Ok(()));
    assert_eq!(foreign_keys_outcome(false, "oops\n"), Err("gdbus failed: oops".to_string()));
}
