//! Drawing-session decisions: which mode the overlays are in, what each
//! request does to it, and where the docked toolbar goes.

use vstd::prelude::*;

verus! {

/// Whether the drawing overlays are up.
#[derive(Debug, Clone, Copy, PartialEq, Eq, Structural)]
pub enum OverlayMode {
    Hidden,
    Drawing,
}

impl OverlayMode {
    /// The mode's name as the frontend receives it.
    pub fn as_str(self) -> (s: &'static str)
        ensures
            s@ == (match self {
                OverlayMode::Hidden => "hidden"@,
                OverlayMode::Drawing => "drawing"@,
            }),
    {
        match self {
            OverlayMode::Hidden => "hidden",
            OverlayMode::Drawing => "drawing",
        }
    }

    /// Annotation is on (any mode but `Hidden`).
    pub fn is_active(self) -> (b: bool)
        ensures
            b == (self != OverlayMode::Hidden),
    {
        self != OverlayMode::Hidden
    }
}

/// What the user or the app asks of the drawing session.
#[derive(Debug, Clone, Copy, PartialEq, Eq, Structural)]
pub enum SessionRequest {
    /// Tray click, global shortcut, second launch.
    Toggle,
    /// Turn annotation on (always re-runs activation).
    Activate,
    /// Turn annotation off.
    Deactivate,
    /// Clear every display (undoable).
    Clear,
    /// Pass pointer events through the overlays (toolbar hover).
    PointerPassThrough,
    /// A file open/insert/save from the tray or a file association: drawing
    /// must be on for the strokes' webviews to be live.
    FileAction,
}

/// What the app carries out for a request.
#[derive(Debug, Clone, Copy, PartialEq, Eq, Structural)]
pub enum SessionAction {
    Nothing,
    /// Show and place the overlays; with `surface_toolbar`, also ask the
    /// frontend to surface the docked toolbar bar.
    Activate { surface_toolbar: bool },
    /// Hide every overlay and the toolbar, leave whiteboard mode.
    Deactivate,
    /// Emit the undoable clear to every display.
    Clear,
    /// Apply the pointer pass-through to the overlays.
    PassThrough,
}

/// The session's next mode and action for `request` in mode `mode`.
pub open spec fn session_next(mode: OverlayMode, request: SessionRequest) -> (OverlayMode, SessionAction) {
    match request {
        SessionRequest::Toggle => match mode {
            OverlayMode::Hidden => (OverlayMode::Drawing, SessionAction::Activate { surface_toolbar: true }),
            OverlayMode::Drawing => (OverlayMode::Hidden, SessionAction::Deactivate),
        },
        SessionRequest::Activate => (OverlayMode::Drawing, SessionAction::Activate { surface_toolbar: false }),
        SessionRequest::Deactivate => match mode {
            OverlayMode::Hidden => (OverlayMode::Hidden, SessionAction::Nothing),
            OverlayMode::Drawing => (OverlayMode::Hidden, SessionAction::Deactivate),
        },
        SessionRequest::Clear => match mode {
            OverlayMode::Hidden => (OverlayMode::Hidden, SessionAction::Nothing),
            OverlayMode::Drawing => (OverlayMode::Drawing, SessionAction::Clear),
        },
        SessionRequest::PointerPassThrough => match mode {
            OverlayMode::Hidden => (OverlayMode::Hidden, SessionAction::Nothing),
            OverlayMode::Drawing => (OverlayMode::Drawing, SessionAction::PassThrough),
        },
        SessionRequest::FileAction => match mode {
            OverlayMode::Hidden => (OverlayMode::Drawing, SessionAction::Activate { surface_toolbar: false }),
            OverlayMode::Drawing => (OverlayMode::Drawing, SessionAction::Nothing),
        },
    }
}

/// Decide a request: the next mode and what to carry out.
pub fn session_step(mode: OverlayMode, request: SessionRequest) -> (r: (OverlayMode, SessionAction))
    ensures
        r == session_next(mode, request),
        mode == OverlayMode::Drawing && r.0 == OverlayMode::Hidden ==> r.1 == SessionAction::Deactivate,
        mode == OverlayMode::Hidden && r.0 == OverlayMode::Drawing ==> r.1 is Activate,
        r.1 == SessionAction::Deactivate ==> mode == OverlayMode::Drawing && r.0 == OverlayMode::Hidden,
        r.1 is Activate ==> r.0 == OverlayMode::Drawing,
{
    proof {
        lemma_mode_changes_carry_their_action(mode, request);
    }
    match request {
        SessionRequest::Toggle => match mode {
            OverlayMode::Hidden => (OverlayMode::Drawing, SessionAction::Activate { surface_toolbar: true }),
            OverlayMode::Drawing => (OverlayMode::Hidden, SessionAction::Deactivate),
        },
        SessionRequest::Activate => (OverlayMode::Drawing, SessionAction::Activate { surface_toolbar: false }),
        SessionRequest::Deactivate => match mode {
            OverlayMode::Hidden => (OverlayMode::Hidden, SessionAction::Nothing),
            OverlayMode::Drawing => (OverlayMode::Hidden, SessionAction::Deactivate),
        },
        SessionRequest::Clear => match mode {
            OverlayMode::Hidden => (OverlayMode::Hidden, SessionAction::Nothing),
            OverlayMode::Drawing => (OverlayMode::Drawing, SessionAction::Clear),
        },
        SessionRequest::PointerPassThrough => match mode {
            OverlayMode::Hidden => (OverlayMode::Hidden, SessionAction::Nothing),
            OverlayMode::Drawing => (OverlayMode::Drawing, SessionAction::PassThrough),
        },
        SessionRequest::FileAction => match mode {
            OverlayMode::Hidden => (OverlayMode::Drawing, SessionAction::Activate { surface_toolbar: false }),
            OverlayMode::Drawing => (OverlayMode::Drawing, SessionAction::Nothing),
        },
    }
}

/// A change of mode always comes with the action that carries it out:
/// leaving drawing deactivates the overlays, entering it activates them. The
/// deactivate action comes only with leaving drawing, the activate action
/// only leaves the overlays up, and a request that finds and leaves them
/// hidden does nothing. In particular, a deactivate request while drawing
/// hides the overlays and deactivates them.
pub proof fn lemma_mode_changes_carry_their_action(mode: OverlayMode, request: SessionRequest)
    ensures
        ({
            let (next, action) = session_next(mode, request);
            &&& mode == OverlayMode::Drawing && next == OverlayMode::Hidden ==> action == SessionAction::Deactivate
            &&& mode == OverlayMode::Hidden && next == OverlayMode::Drawing ==> action is Activate
            &&& action == SessionAction::Deactivate ==> mode == OverlayMode::Drawing && next == OverlayMode::Hidden
            &&& action is Activate ==> next == OverlayMode::Drawing
            &&& mode == OverlayMode::Hidden && next == OverlayMode::Hidden ==> action == SessionAction::Nothing
        }),
        request == SessionRequest::Deactivate && mode == OverlayMode::Drawing ==> session_next(mode, request) == (
            OverlayMode::Hidden,
            SessionAction::Deactivate,
        ),
{
}

/// Toggling twice comes back to the starting mode.
pub proof fn lemma_toggle_twice_restores_mode(mode: OverlayMode)
    ensures
        session_next(session_next(mode, SessionRequest::Toggle).0, SessionRequest::Toggle).0 == mode,
{
}

/// Turning annotation off is idempotent: a second request does nothing.
pub proof fn lemma_deactivate_idempotent(mode: OverlayMode)
    ensures
        session_next(mode, SessionRequest::Deactivate).0 == OverlayMode::Hidden,
        session_next(session_next(mode, SessionRequest::Deactivate).0, SessionRequest::Deactivate).1
            == SessionAction::Nothing,
{
}

/// Clear and pointer pass-through never change the mode, and act only while
/// drawing.
pub proof fn lemma_in_session_requests_keep_mode(mode: OverlayMode)
    ensures
        session_next(mode, SessionRequest::Clear).0 == mode,
        session_next(mode, SessionRequest::PointerPassThrough).0 == mode,
        mode == OverlayMode::Hidden ==> session_next(mode, SessionRequest::Clear).1 == SessionAction::Nothing,
        mode == OverlayMode::Hidden ==> session_next(mode, SessionRequest::PointerPassThrough).1
            == SessionAction::Nothing,
{
}

/// After any activation or file request the overlays are up.
pub proof fn lemma_file_action_leaves_drawing_on(mode: OverlayMode)
    ensures
        session_next(mode, SessionRequest::FileAction).0 == OverlayMode::Drawing,
        session_next(mode, SessionRequest::Activate).0 == OverlayMode::Drawing,
{
}

/// Width of the docked toolbar in pixels.
pub const TOOLBAR_WIDTH: i32 = 580;
/// One-line toolbar bar height in pixels.
pub const TOOLBAR_PANEL_HEIGHT_COMPACT: i32 = 46;
/// Dock offset from the right edge of the monitor.
pub const TOOLBAR_DOCK_RIGHT: i32 = 25;
/// Dock offset from the bottom edge of the monitor.
pub const TOOLBAR_DOCK_BOTTOM: i32 = 16;

/// The dock position's coordinate along one axis: `origin + extent - size -
/// offset`, computed left to right in `i32`; `None` when a step leaves the
/// `i32` range.
pub open spec fn dock_coordinate(origin: i32, extent: u32, size: i32, offset: i32) -> Option<i32> {
    let a = origin + (extent as i32);
    let b = a - size;
    let c = b - offset;
    if i32::MIN <= a <= i32::MAX && i32::MIN <= b <= i32::MAX && i32::MIN <= c <= i32::MAX {
        Some(c as i32)
    } else {
        None
    }
}

fn dock_coordinate_exec(origin: i32, extent: u32, size: i32, offset: i32) -> (r: Option<i32>)
    ensures
        r == dock_coordinate(origin, extent, size, offset),
{
    let e = extent as i32;
    let a = (origin as i64) + (e as i64);
    if a < i32::MIN as i64 || a > i32::MAX as i64 {
        return None;
    }
    let b = a - (size as i64);
    if b < i32::MIN as i64 || b > i32::MAX as i64 {
        return None;
    }
    let c = b - (offset as i64);
    if c < i32::MIN as i64 || c > i32::MAX as i64 {
        return None;
    }
    Some(c as i32)
}

/// Default dock for a fresh (never-dragged) always-on toolbar: bottom-right
/// of the monitor rectangle `(x, y, w, h)` in physical pixels. `None` when
/// the position is out of the `i32` range.
pub fn toolbar_dock_position(x: i32, y: i32, w: u32, h: u32) -> (r: Option<(i32, i32)>)
    ensures
        r == match (
            dock_coordinate(x, w, TOOLBAR_WIDTH, TOOLBAR_DOCK_RIGHT),
            dock_coordinate(y, h, TOOLBAR_PANEL_HEIGHT_COMPACT, TOOLBAR_DOCK_BOTTOM),
        ) {
            (Some(left), Some(top)) => Some((left, top)),
            _ => None,
        },
{
    let left = dock_coordinate_exec(x, w, TOOLBAR_WIDTH, TOOLBAR_DOCK_RIGHT);
    let top = dock_coordinate_exec(y, h, TOOLBAR_PANEL_HEIGHT_COMPACT, TOOLBAR_DOCK_BOTTOM);
    match (left, top) {
        (Some(l), Some(t)) => Some((l, t)),
        _ => None,
    }
}

} // verus!
