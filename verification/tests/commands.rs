use marker::commands::{
    default_shortcuts, duplicate_shortcut_errors, invalid_shortcut_errors, invalid_shortcut_errors_given,
    is_allowed_open_url, refusal_for, saved_with, shortcut_validation_errors, timeline_replay_targets,
};
use marker::i18n::strings;
use marker::timeline::Timeline;

#[test]
fn duplicate_shortcut_errors_empty_for_defaults() {
    assert!(duplicate_shortcut_errors(&default_shortcuts(), &strings(false)).is_empty());
}

#[test]
fn duplicate_shortcut_errors_detects_collision() {
    let mut shortcuts = default_shortcuts();
    shortcuts.clear_drawing = shortcuts.toggle_drawing.clone();
    let errors = duplicate_shortcut_errors(&shortcuts, &strings(false));
    assert_eq!(errors.len(), 1);
    assert!(errors[0].contains("Duplicate shortcut"));
}

#[test]
fn duplicate_shortcut_errors_ignores_empty_bindings() {
    let mut shortcuts = default_shortcuts();
    shortcuts.clear_drawing = String::new();
    assert!(duplicate_shortcut_errors(&shortcuts, &strings(false)).is_empty());
}

#[test]
fn invalid_shortcut_errors_allows_empty() {
    let mut shortcuts = default_shortcuts();
    shortcuts.clear_drawing = String::new();
    assert!(invalid_shortcut_errors(&shortcuts, &strings(false)).is_empty());
}

#[test]
fn invalid_shortcut_errors_rejects_garbage() {
    let mut shortcuts = default_shortcuts();
    shortcuts.clear_drawing = "NotAKey".into();
    let errors = invalid_shortcut_errors(&shortcuts, &strings(false));
    assert_eq!(errors.len(), 1);
    assert!(errors[0].contains("NotAKey"));
}

#[test]
fn open_url_allowlist_permits_known_destinations() {
    assert!(is_allowed_open_url("https://github.com/AomeNero/marker"));
    assert!(is_allowed_open_url(
        "https://github.com/AomeNero/marker/issues"
    ));
    assert!(is_allowed_open_url(
        "https://apps.microsoft.com/store/detail/marker/9P123"
    ));
    assert!(is_allowed_open_url("https://marker.cn/help.html"));
}

#[test]
fn open_url_allowlist_blocks_untrusted_destinations() {
    assert!(!is_allowed_open_url("https://example.com/"));
    assert!(!is_allowed_open_url("http://github.com/AomeNero/marker"));
    assert!(!is_allowed_open_url("https://afdian.com.evil.com/a/marker"));
    assert!(!is_allowed_open_url("https://marker.cn.evil.com/help"));
    assert!(!is_allowed_open_url("http://marker.cn/help.html"));
}

// ---- own tests -----------------------------------------------------------

#[test]
fn default_shortcuts_are_alt_bindings() {
    let s = default_shortcuts();
    assert_eq!(s.toggle_drawing, "Alt+G");
    assert_eq!(s.clear_drawing, "Alt+E");
}

#[test]
fn duplicate_message_names_both_actions() {
    let mut shortcuts = default_shortcuts();
    shortcuts.clear_drawing = shortcuts.toggle_drawing.clone();
    let errors = duplicate_shortcut_errors(&shortcuts, &strings(false));
    assert_eq!(errors, vec!["Duplicate shortcut: Toggle annotation and Clear annotations".to_string()]);
    let errors = duplicate_shortcut_errors(&shortcuts, &strings(true));
    assert_eq!(errors, vec!["Duplicate shortcut: 开始标注 and 清除标注".to_string()]);
}

#[test]
fn invalid_message_is_label_and_accelerator() {
    let mut shortcuts = default_shortcuts();
    shortcuts.toggle_drawing = "Ctrl+Nope".into();
    let errors = invalid_shortcut_errors(&shortcuts, &strings(false));
    assert_eq!(errors, vec!["Toggle annotation: Ctrl+Nope".to_string()]);
}

#[test]
fn invalid_errors_follow_the_parse_outcomes() {
    let shortcuts = default_shortcuts();
    let labels = strings(false);
    assert!(invalid_shortcut_errors_given(&shortcuts, &labels, true, true).is_empty());
    assert_eq!(
        invalid_shortcut_errors_given(&shortcuts, &labels, false, false),
        vec!["Toggle annotation: Alt+G".to_string(), "Clear annotations: Alt+E".to_string()]
    );
    let mut empty = default_shortcuts();
    empty.toggle_drawing = String::new();
    assert_eq!(
        invalid_shortcut_errors_given(&empty, &labels, false, false),
        vec!["Clear annotations: Alt+E".to_string()]
    );
}

#[test]
fn accelerators_that_parse() {
    let mut shortcuts = default_shortcuts();
    shortcuts.toggle_drawing = "Ctrl+Shift+D".into();
    shortcuts.clear_drawing = "Ctrl+Shift+".into();
    let errors = invalid_shortcut_errors(&shortcuts, &strings(false));
    assert_eq!(errors, vec!["Clear annotations: Ctrl+Shift+".to_string()]);
}

#[test]
fn validation_lists_invalid_before_duplicates() {
    let mut shortcuts = default_shortcuts();
    shortcuts.toggle_drawing = "Bogus".into();
    shortcuts.clear_drawing = "Bogus".into();
    let errors = shortcut_validation_errors(&shortcuts, &strings(false));
    assert_eq!(
        errors,
        vec![
            "Toggle annotation: Bogus".to_string(),
            "Clear annotations: Bogus".to_string(),
            "Duplicate shortcut: Toggle annotation and Clear annotations".to_string(),
        ]
    );
    assert!(shortcut_validation_errors(&default_shortcuts(), &strings(false)).is_empty());
}

#[test]
fn save_results() {
    assert!(refusal_for(Vec::new()).is_none());
    let refused = refusal_for(vec!["x".to_string()]).unwrap();
    assert!(!refused.ok);
    assert_eq!(refused.failed, Some(vec!["x".to_string()]));
    let saved = saved_with(Vec::new());
    assert!(saved.ok && saved.failed.is_none());
    let warned = saved_with(vec!["Toggle annotation: Alt+G".to_string()]);
    assert!(warned.ok);
    assert_eq!(warned.failed, Some(vec!["Toggle annotation: Alt+G".to_string()]));
}

#[test]
fn url_allowlist_needs_the_full_prefix() {
    assert!(is_allowed_open_url("https://github.com/"));
    assert!(!is_allowed_open_url("https://github.com"));
    assert!(!is_allowed_open_url(""));
}

#[test]
fn replay_targets_owner_or_every_overlay() {
    let labels = vec!["overlay".to_string(), "overlay-2".to_string()];
    let mut t = Timeline::new();
    t.commit("overlay-2", "add");
    let op = t.undo().unwrap();
    assert_eq!(timeline_replay_targets(&op, &labels), vec!["overlay-2".to_string()]);
    t.redo();
    let clear = t.begin_global_clear().unwrap();
    assert_eq!(timeline_replay_targets(&clear, &labels), labels);
}
