//! Native UI strings (tray menu, dialogs, window titles) in Chinese or
//! English.

use vstd::prelude::*;
use crate::text::{has_prefix, starts_with};

verus! {

/// The strings of the native UI chrome.
pub struct Strings {
    pub settings: &'static str,
    pub help: &'static str,
    pub about: &'static str,
    pub quit: &'static str,
    pub window_title: &'static str,
    pub tray_tooltip: &'static str,
    pub toggle_drawing: &'static str,
    pub clear_drawing: &'static str,
    pub open_annotations: &'static str,
    pub insert_annotations: &'static str,
    pub save_annotations: &'static str,
    pub annotations_file: &'static str,
}

/// A locale tag names Chinese when it starts with `zh` (`zh`, `zh-CN`, ...).
pub open spec fn names_chinese(locale: Seq<char>) -> bool {
    has_prefix(locale, "zh"@)
}

/// Whether the locale tag `locale` selects the Chinese strings.
pub fn is_chinese_locale(locale: &str) -> (b: bool)
    ensures
        b == names_chinese(locale@),
{
    starts_with(locale, "zh")
}

/// Language choice at startup: the configured locale when there is one,
/// otherwise what the system reports (`system_chinese`).
pub fn init(locale: Option<&str>, system_chinese: bool) -> (chinese: bool)
    ensures
        chinese == match locale {
            Some(l) => names_chinese(l@),
            None => system_chinese,
        },
{
    match locale {
        Some(l) => is_chinese_locale(l),
        None => system_chinese,
    }
}

/// Language choice after the user picks `locale`.
pub fn set_locale(locale: &str) -> (chinese: bool)
    ensures
        chinese == names_chinese(locale@),
{
    is_chinese_locale(locale)
}

/// Windows UI language id whose primary language (low byte) is Chinese.
pub fn lang_id_is_chinese(lang_id: u16) -> (b: bool)
    ensures
        b == (lang_id % 256 == 4),
{
    let primary = lang_id & 0xFF;
    assert(lang_id & 0xFF == lang_id % 256) by (bit_vector);
    primary == 0x04
}

/// The Chinese strings when `chinese`, else the English ones.
pub fn strings(chinese: bool) -> (s: Strings)
    ensures
        s.settings@ == (if chinese { "设置"@ } else { "Settings"@ }),
        s.help@ == (if chinese { "使用帮助"@ } else { "Help"@ }),
        s.about@ == (if chinese { "关于"@ } else { "About"@ }),
        s.quit@ == (if chinese { "退出"@ } else { "Quit"@ }),
        s.window_title@ == (if chinese { "Marker 设置"@ } else { "Marker Settings"@ }),
        s.tray_tooltip@ == (if chinese { "Marker - 屏幕标注工具"@ } else { "Marker - Screen annotation"@ }),
        s.toggle_drawing@ == (if chinese { "开始标注"@ } else { "Toggle annotation"@ }),
        s.clear_drawing@ == (if chinese { "清除标注"@ } else { "Clear annotations"@ }),
        s.open_annotations@ == (if chinese { "打开标注文件"@ } else { "Open annotations"@ }),
        s.insert_annotations@ == (if chinese { "插入标注文件"@ } else { "Insert annotations"@ }),
        s.save_annotations@ == (if chinese { "保存标注"@ } else { "Save annotations"@ }),
        s.annotations_file@ == (if chinese { "Marker 标注文件"@ } else { "Marker annotations"@ }),
{
    if chinese {
        Strings {
            settings: "设置",
            help: "使用帮助",
            about: "关于",
            quit: "退出",
            window_title: "Marker 设置",
            tray_tooltip: "Marker - 屏幕标注工具",
            toggle_drawing: "开始标注",
            clear_drawing: "清除标注",
            open_annotations: "打开标注文件",
            insert_annotations: "插入标注文件",
            save_annotations: "保存标注",
            annotations_file: "Marker 标注文件",
        }
    } else {
        Strings {
            settings: "Settings",
            help: "Help",
            about: "About",
            quit: "Quit",
            window_title: "Marker Settings",
            tray_tooltip: "Marker - Screen annotation",
            toggle_drawing: "Toggle annotation",
            clear_drawing: "Clear annotations",
            open_annotations: "Open annotations",
            insert_annotations: "Insert annotations",
            save_annotations: "Save annotations",
            annotations_file: "Marker annotations",
        }
    }
}

} // verus!
