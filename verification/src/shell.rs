//! Decisions of the app shell: tray menu entries, launch arguments, settings
//! pages and window close behaviour.

use vstd::prelude::*;
use crate::text::{has_prefix, has_suffix, ends_with, starts_with, text_eq};

verus! {

/// A tray menu file action.
#[derive(Debug, Clone, Copy, PartialEq, Eq, Structural)]
pub enum FileRequestMode {
    Open,
    Insert,
    Save,
}

impl FileRequestMode {
    /// The mode's name as the frontend orchestrator receives it.
    pub fn as_str(self) -> (s: &'static str)
        ensures
            s@ == (match self {
                FileRequestMode::Open => "open"@,
                FileRequestMode::Insert => "insert"@,
                FileRequestMode::Save => "save"@,
            }),
    {
        match self {
            FileRequestMode::Open => "open",
            FileRequestMode::Insert => "insert",
            FileRequestMode::Save => "save",
        }
    }
}

/// A settings window tab reachable from the tray.
#[derive(Debug, Clone, Copy, PartialEq, Eq, Structural)]
pub enum SettingsTab {
    Help,
    About,
}

impl SettingsTab {
    pub fn as_str(self) -> (s: &'static str)
        ensures
            s@ == (match self {
                SettingsTab::Help => "help"@,
                SettingsTab::About => "about"@,
            }),
    {
        match self {
            SettingsTab::Help => "help",
            SettingsTab::About => "about",
        }
    }
}

/// What a tray menu entry does.
#[derive(Debug, Clone, Copy, PartialEq, Eq, Structural)]
pub enum TrayAction {
    OpenSettings,
    File(FileRequestMode),
    SettingsTab(SettingsTab),
    Quit,
    Ignore,
}

/// The action of the tray menu entry with id `id`.
pub open spec fn tray_action_of(id: Seq<char>) -> TrayAction {
    if id == "settings"@ {
        TrayAction::OpenSettings
    } else if id == "open-annotations"@ {
        TrayAction::File(FileRequestMode::Open)
    } else if id == "insert-annotations"@ {
        TrayAction::File(FileRequestMode::Insert)
    } else if id == "save-annotations"@ {
        TrayAction::File(FileRequestMode::Save)
    } else if id == "help"@ {
        TrayAction::SettingsTab(SettingsTab::Help)
    } else if id == "about"@ {
        TrayAction::SettingsTab(SettingsTab::About)
    } else if id == "quit"@ {
        TrayAction::Quit
    } else {
        TrayAction::Ignore
    }
}

/// Dispatch a tray menu event by its entry id.
pub fn tray_action(id: &str) -> (a: TrayAction)
    ensures
        a == tray_action_of(id@),
{
    if text_eq(id, "settings") {
        TrayAction::OpenSettings
    } else if text_eq(id, "open-annotations") {
        TrayAction::File(FileRequestMode::Open)
    } else if text_eq(id, "insert-annotations") {
        TrayAction::File(FileRequestMode::Insert)
    } else if text_eq(id, "save-annotations") {
        TrayAction::File(FileRequestMode::Save)
    } else if text_eq(id, "help") {
        TrayAction::SettingsTab(SettingsTab::Help)
    } else if text_eq(id, "about") {
        TrayAction::SettingsTab(SettingsTab::About)
    } else if text_eq(id, "quit") {
        TrayAction::Quit
    } else {
        TrayAction::Ignore
    }
}

/// The lowercase mapping of a text (a function of the text alone).
pub uninterp spec fn lowercase(s: Seq<char>) -> Seq<char>;

/// `str::to_lowercase` (Unicode lowercase mapping); the contract names the
/// result and states nothing else about it.
#[verifier::external_body]
fn to_lowercase(s: &str) -> (r: String)
    ensures
        r@ == lowercase(s@),
{
    s.to_lowercase()
}

/// A lowercased argument names a `.marker` annotation file.
pub fn has_marker_extension(lowered: &str) -> (b: bool)
    ensures
        b == has_suffix(lowered@, ".marker"@),
{
    ends_with(lowered, ".marker")
}

/// A launch argument is a `.marker` annotation file (extension compared
/// case-insensitively).
pub fn is_marker_argument(arg: &str) -> (b: bool)
    ensures
        b == has_suffix(lowercase(arg@), ".marker"@),
{
    let lowered = to_lowercase(arg);
    has_marker_extension(lowered.as_str())
}

/// The first of `args` that is a `.marker` annotation file.
pub fn find_marker_argument(args: &Vec<String>) -> (r: Option<usize>)
    ensures
        match r {
            Some(i) => i < args@.len() && has_suffix(lowercase(args@[i as int]@), ".marker"@) && forall|j: int|
                0 <= j < i ==> !has_suffix(lowercase(#[trigger] args@[j]@), ".marker"@),
            None => forall|j: int| 0 <= j < args@.len() ==> !has_suffix(lowercase(#[trigger] args@[j]@), ".marker"@),
        },
{
    let n = args.len();
    let mut i: usize = 0;
    while i < n
        invariant
            n == args@.len(),
            i <= n,
            forall|j: int| 0 <= j < i ==> !has_suffix(lowercase(#[trigger] args@[j]@), ".marker"@),
        decreases n - i,
    {
        if is_marker_argument(args[i].as_str()) {
            return Some(i);
        }
        i = i + 1;
    }
    None
}

/// The settings page URL, opened at `tab` when there is one.
pub open spec fn settings_page_of(tab: Option<Seq<char>>) -> Seq<char> {
    match tab {
        Some(t) => "index.html#settings/"@ + t,
        None => "index.html#settings"@,
    }
}

/// The settings window's page, opened at `tab` when there is one.
pub fn settings_page(tab: Option<&str>) -> (url: String)
    ensures
        url@ == settings_page_of(
            match tab {
                Some(t) => Some(t@),
                None => None,
            },
        ),
{
    match tab {
        Some(t) => {
            let mut url = String::from_str("index.html#settings/");
            url.append(t);
            url
        },
        None => String::from_str("index.html#settings"),
    }
}

/// A window label belongs to an overlay window (`overlay`, `overlay-2`, ...).
pub fn is_overlay_window(label: &str) -> (b: bool)
    ensures
        b == has_prefix(label@, "overlay"@),
{
    starts_with(label, "overlay")
}

/// Closing an overlay or the toolbar only hides it (its webview and strokes
/// stay alive).
pub fn hides_on_close(label: &str) -> (b: bool)
    ensures
        b == (has_prefix(label@, "overlay"@) || label@ == "toolbar"@),
{
    is_overlay_window(label) || text_eq(label, "toolbar")
}

} // verus!
