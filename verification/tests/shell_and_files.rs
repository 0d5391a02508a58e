use marker::annotation_file::{
    annotation_file_name, annotation_save_target, annotation_stamp, parse_load_mode, prepare_annotation_save,
    LoadMode,
};
use marker::i18n::{init, is_chinese_locale, lang_id_is_chinese, set_locale, strings};
use marker::monitor::{point_in_rect, work_rect_without_dock};
use marker::overlay::{session_step, toolbar_dock_position, OverlayMode, SessionAction, SessionRequest};
use marker::overlay_windows::{monitor_at_point, MonitorSpec};
use marker::shell::{
    find_marker_argument, has_marker_extension, hides_on_close, is_marker_argument, is_overlay_window,
    settings_page, tray_action, FileRequestMode, SettingsTab, TrayAction,
};

// ---- i18n ----------------------------------------------------------------

#[test]
fn locale_selection() {
    assert!(is_chinese_locale("zh-CN"));
    assert!(is_chinese_locale("zh"));
    assert!(!is_chinese_locale("en-US"));
    assert!(!is_chinese_locale("z"));
    assert!(init(Some("zh-TW"), false));
    assert!(!init(Some("en"), true));
    assert!(init(None, true));
    assert!(!init(None, false));
    assert!(set_locale("zh-Hans"));
    assert!(!set_locale("fr"));
}

#[test]
fn windows_language_ids() {
    assert!(lang_id_is_chinese(0x0804));
    assert!(lang_id_is_chinese(0x0404));
    assert!(!lang_id_is_chinese(0x0409));
}

#[test]
fn string_tables() {
    let en = strings(false);
    assert_eq!(en.settings, "Settings");
    assert_eq!(en.window_title, "Marker Settings");
    assert_eq!(en.annotations_file, "Marker annotations");
    let zh = strings(true);
    assert_eq!(zh.settings, "设置");
    assert_eq!(zh.quit, "退出");
    assert_eq!(zh.tray_tooltip, "Marker - 屏幕标注工具");
}

// ---- annotation files ----------------------------------------------------

#[test]
fn stamp_is_zero_padded() {
    assert_eq!(annotation_stamp(2026, 9, 3, 15, 30, 0), "20260903153000");
    assert_eq!(annotation_stamp(7, 1, 2, 3, 4, 5), "00070102030405");
    assert_eq!(annotation_stamp(-44, 3, 15, 12, 0, 0), "-00440315120000");
}

#[test]
fn file_names() {
    assert_eq!(annotation_file_name("20260903153000"), "marker20260903153000.marker");
}

#[test]
fn save_refuses_non_json() {
    assert_eq!(
        prepare_annotation_save("{\"version\":1}", "20260903153000"),
        Ok("marker20260903153000.marker".to_string())
    );
    assert_eq!(prepare_annotation_save("[1, 2", "x"), Err("invalid annotation payload".to_string()));
    assert_eq!(prepare_annotation_save("", "x"), Err("invalid annotation payload".to_string()));
    assert_eq!(annotation_save_target(true, "s"), Ok("markers.marker".to_string()));
    assert_eq!(annotation_save_target(false, "s"), Err("invalid annotation payload".to_string()));
}

#[test]
fn load_modes() {
    assert_eq!(parse_load_mode("open"), Ok(LoadMode::Open));
    assert_eq!(parse_load_mode("insert"), Ok(LoadMode::Insert));
    assert_eq!(parse_load_mode("replace"), Err("unknown load mode: replace".to_string()));
}

// ---- session ---------------------------------------------------------------

#[test]
fn toggle_twice_returns_to_hidden() {
    let (m1, a1) = session_step(OverlayMode::Hidden, SessionRequest::Toggle);
    assert_eq!(m1, OverlayMode::Drawing);
    assert_eq!(a1, SessionAction::Activate { surface_toolbar: true });
    let (m2, a2) = session_step(m1, SessionRequest::Toggle);
    assert_eq!(m2, OverlayMode::Hidden);
    assert_eq!(a2, SessionAction::Deactivate);
}

#[test]
fn requests_while_hidden() {
    assert_eq!(session_step(OverlayMode::Hidden, SessionRequest::Clear), (OverlayMode::Hidden, SessionAction::Nothing));
    assert_eq!(
        session_step(OverlayMode::Hidden, SessionRequest::Deactivate),
        (OverlayMode::Hidden, SessionAction::Nothing)
    );
    assert_eq!(
        session_step(OverlayMode::Hidden, SessionRequest::PointerPassThrough),
        (OverlayMode::Hidden, SessionAction::Nothing)
    );
    assert_eq!(
        session_step(OverlayMode::Hidden, SessionRequest::FileAction),
        (OverlayMode::Drawing, SessionAction::Activate { surface_toolbar: false })
    );
}

#[test]
fn requests_while_drawing() {
    assert_eq!(session_step(OverlayMode::Drawing, SessionRequest::Clear), (OverlayMode::Drawing, SessionAction::Clear));
    assert_eq!(
        session_step(OverlayMode::Drawing, SessionRequest::FileAction),
        (OverlayMode::Drawing, SessionAction::Nothing)
    );
    assert_eq!(
        session_step(OverlayMode::Drawing, SessionRequest::Activate),
        (OverlayMode::Drawing, SessionAction::Activate { surface_toolbar: false })
    );
}

#[test]
fn mode_names() {
    assert_eq!(OverlayMode::Hidden.as_str(), "hidden");
    assert_eq!(OverlayMode::Drawing.as_str(), "drawing");
    assert!(OverlayMode::Drawing.is_active());
    assert!(!OverlayMode::Hidden.is_active());
}

#[test]
fn toolbar_dock() {
    assert_eq!(toolbar_dock_position(0, 0, 1920, 1040), Some((1920 - 580 - 25, 1040 - 46 - 16)));
    assert_eq!(toolbar_dock_position(-1920, 10, 1920, 1080), Some((-605, 1028)));
    assert_eq!(toolbar_dock_position(i32::MAX, 0, 10, 100), None);
    assert_eq!(toolbar_dock_position(i32::MIN, 0, 10, 100), None);
}

// ---- geometry ---------------------------------------------------------------

#[test]
fn rect_edges() {
    assert!(point_in_rect(10, 10, 5, 5, 10, 10));
    assert!(point_in_rect(10, 10, 5, 5, 14, 14));
    assert!(!point_in_rect(10, 10, 5, 5, 15, 14));
    assert!(!point_in_rect(10, 10, 0, 5, 10, 10));
    assert!(point_in_rect(i32::MAX - 1, 0, 10, 10, i32::MAX, 0));
}

#[test]
fn dock_allowance() {
    assert_eq!(work_rect_without_dock((0, 25, 1440, 875)), (0, 25, 1440, 811));
    assert_eq!(work_rect_without_dock((0, 0, 100, 30)), (0, 0, 100, 0));
}

#[test]
fn cursor_monitor_is_the_first_containing() {
    let ms = [
        MonitorSpec { x: 0, y: 0, width: 100, height: 100, scale_bits: 1.0f64.to_bits(), scale_percent: 100, name: None },
        MonitorSpec { x: 100, y: 0, width: 100, height: 100, scale_bits: 1.5f64.to_bits(), scale_percent: 150, name: None },
    ];
    assert_eq!(monitor_at_point(&ms, 150, 50), Some(1));
    assert_eq!(monitor_at_point(&ms, 0, 0), Some(0));
    assert_eq!(monitor_at_point(&ms, 200, 0), None);
}

// ---- shell -----------------------------------------------------------------------

#[test]
fn tray_menu_ids() {
    assert_eq!(tray_action("settings"), TrayAction::OpenSettings);
    assert_eq!(tray_action("open-annotations"), TrayAction::File(FileRequestMode::Open));
    assert_eq!(tray_action("insert-annotations"), TrayAction::File(FileRequestMode::Insert));
    assert_eq!(tray_action("save-annotations"), TrayAction::File(FileRequestMode::Save));
    assert_eq!(tray_action("help"), TrayAction::SettingsTab(SettingsTab::Help));
    assert_eq!(tray_action("about"), TrayAction::SettingsTab(SettingsTab::About));
    assert_eq!(tray_action("quit"), TrayAction::Quit);
    assert_eq!(tray_action("other"), TrayAction::Ignore);
    assert_eq!(FileRequestMode::Insert.as_str(), "insert");
    assert_eq!(SettingsTab::About.as_str(), "about");
}

#[test]
fn marker_arguments() {
    assert!(is_marker_argument("C:\\Users\\me\\board.marker"));
    assert!(is_marker_argument("/tmp/BOARD.MARKER"));
    assert!(!is_marker_argument("board.marker.txt"));
    assert!(!is_marker_argument("marker"));
    assert!(has_marker_extension("a.marker"));
    assert!(!has_marker_extension("a.MARKER"));
    let args = vec!["marker.exe".to_string(), "--flag".to_string(), "x.Marker".to_string(), "y.marker".to_string()];
    assert_eq!(find_marker_argument(&args), Some(2));
    assert_eq!(find_marker_argument(&vec!["a".to_string()]), None);
}

#[test]
fn settings_pages() {
    assert_eq!(settings_page(None), "index.html#settings");
    assert_eq!(settings_page(Some("help")), "index.html#settings/help");
}

#[test]
fn window_close_rules() {
    assert!(hides_on_close("overlay"));
    assert!(hides_on_close("overlay-3"));
    assert!(hides_on_close("toolbar"));
    assert!(!hides_on_close("settings"));
    assert!(is_overlay_window("overlay-2"));
    assert!(!is_overlay_window("toolbar"));
}
