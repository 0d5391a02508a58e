//! Validation behind the settings commands: shortcut bindings and the URL
//! allowlist.

use vstd::prelude::*;
use crate::i18n::Strings;
use crate::timeline::TimelineOp;
use crate::text::{has_prefix, starts_with};

verus! {

/// Global shortcut bindings; an empty accelerator is unbound.
pub struct Shortcuts {
    pub toggle_drawing: String,
    pub clear_drawing: String,
}

/// Outcome of saving shortcut settings.
pub struct SaveResult {
    pub ok: bool,
    pub failed: Option<Vec<String>>,
}

/// The bindings a fresh configuration starts with.
pub fn default_shortcuts() -> (s: Shortcuts)
    ensures
        s.toggle_drawing@ == "Alt+G"@,
        s.clear_drawing@ == "Alt+E"@,
{
    Shortcuts { toggle_drawing: String::from_str("Alt+G"), clear_drawing: String::from_str("Alt+E") }
}

/// Whether `accel` parses as a global-shortcut accelerator (a function of the
/// text alone).
pub uninterp spec fn accelerator_parses(accel: Seq<char>) -> bool;

/// Parses `accel` with `global_hotkey`'s `HotKey` `FromStr` (the type that
/// the global-shortcut plugin registers) and reports whether it parsed; the
/// contract names the outcome and states nothing else about it.
#[verifier::external_body]
fn shortcut_parses(accel: &str) -> (ok: bool)
    ensures
        ok == accelerator_parses(accel@),
{
    accel.parse::<global_hotkey::hotkey::HotKey>().is_ok()
}

/// `label: accel`.
pub open spec fn labelled(label: Seq<char>, accel: Seq<char>) -> Seq<char> {
    label + ": "@ + accel
}

/// The message for one binding: `label: accel`.
pub fn labelled_binding(label: &str, accel: &str) -> (m: String)
    ensures
        m@ == labelled(label@, accel@),
{
    let mut m = String::from_str(label);
    m.append(": ");
    m.append(accel);
    m
}

/// The message for two actions bound to the same accelerator.
pub open spec fn duplicate_message(a: Seq<char>, b: Seq<char>) -> Seq<char> {
    "Duplicate shortcut: "@ + a + " and "@ + b
}

/// Errors for actions bound to the same accelerator (unbound actions never
/// collide). The two actions are toggle-drawing and clear-drawing, named by
/// `labels`.
pub fn duplicate_shortcut_errors(shortcuts: &Shortcuts, labels: &Strings) -> (errors: Vec<String>)
    ensures
        ({
            let t = shortcuts.toggle_drawing@;
            let c = shortcuts.clear_drawing@;
            if t.len() > 0 && c.len() > 0 && t == c {
                errors@.len() == 1 && errors@[0]@ == duplicate_message(
                    labels.toggle_drawing@,
                    labels.clear_drawing@,
                )
            } else {
                errors@.len() == 0
            }
        }),
{
    let mut failed: Vec<String> = Vec::new();
    let t = shortcuts.toggle_drawing.as_str();
    let c = shortcuts.clear_drawing.as_str();
    if !t.is_empty() && !c.is_empty() && shortcuts.toggle_drawing.eq(&shortcuts.clear_drawing) {
        let mut m = String::from_str("Duplicate shortcut: ");
        m.append(labels.toggle_drawing);
        m.append(" and ");
        m.append(labels.clear_drawing);
        failed.push(m);
    }
    failed
}

/// The invalid-binding errors, given whether each accelerator parses: one
/// `label: accel` per non-empty accelerator that does not parse, toggle
/// before clear.
pub open spec fn invalid_errors(
    shortcuts: Shortcuts,
    labels: Strings,
    toggle_ok: bool,
    clear_ok: bool,
) -> Seq<Seq<char>> {
    let t = shortcuts.toggle_drawing@;
    let c = shortcuts.clear_drawing@;
    let first = if t.len() > 0 && !toggle_ok {
        seq![labelled(labels.toggle_drawing@, t)]
    } else {
        seq![]
    };
    let second = if c.len() > 0 && !clear_ok {
        seq![labelled(labels.clear_drawing@, c)]
    } else {
        seq![]
    };
    first + second
}

/// Each binding is judged on its own: a non-empty accelerator that does not
/// parse is reported for its own action, whatever the other binding is; an
/// empty or parsing accelerator is never reported; there is one error per
/// rejected binding, the toggle binding's first.
pub proof fn lemma_each_unparsable_binding_is_reported(
    shortcuts: Shortcuts,
    labels: Strings,
    toggle_ok: bool,
    clear_ok: bool,
)
    ensures
        ({
            let t = shortcuts.toggle_drawing@;
            let c = shortcuts.clear_drawing@;
            let errors = invalid_errors(shortcuts, labels, toggle_ok, clear_ok);
            let bad_t = t.len() > 0 && !toggle_ok;
            let bad_c = c.len() > 0 && !clear_ok;
            &&& bad_t ==> errors.len() >= 1 && errors[0] == labelled(labels.toggle_drawing@, t)
            &&& bad_c ==> errors.len() >= 1 && errors.last() == labelled(labels.clear_drawing@, c)
            &&& bad_t ==> errors.contains(labelled(labels.toggle_drawing@, t))
            &&& bad_c ==> errors.contains(labelled(labels.clear_drawing@, c))
            &&& errors.len() == (if bad_t { 1int } else { 0int }) + (if bad_c { 1int } else { 0int })
        }),
{
    let t = shortcuts.toggle_drawing@;
    let c = shortcuts.clear_drawing@;
    let errors = invalid_errors(shortcuts, labels, toggle_ok, clear_ok);
    if t.len() > 0 && !toggle_ok {
        assert(errors[0] == labelled(labels.toggle_drawing@, t));
    }
    if c.len() > 0 && !clear_ok {
        assert(errors[errors.len() - 1] == labelled(labels.clear_drawing@, c));
    }
}

pub open spec fn texts(v: Seq<String>) -> Seq<Seq<char>> {
    v.map_values(|s: String| s@)
}

/// The invalid-binding errors for the parse outcomes `toggle_ok` and
/// `clear_ok` of the two accelerators.
pub fn invalid_shortcut_errors_given(
    shortcuts: &Shortcuts,
    labels: &Strings,
    toggle_ok: bool,
    clear_ok: bool,
) -> (errors: Vec<String>)
    ensures
        texts(errors@) == invalid_errors(*shortcuts, *labels, toggle_ok, clear_ok),
        shortcuts.toggle_drawing@.len() > 0 && !toggle_ok ==> texts(errors@).contains(
            labelled(labels.toggle_drawing@, shortcuts.toggle_drawing@),
        ),
        shortcuts.clear_drawing@.len() > 0 && !clear_ok ==> texts(errors@).contains(
            labelled(labels.clear_drawing@, shortcuts.clear_drawing@),
        ),
        errors@.len() == (if shortcuts.toggle_drawing@.len() > 0 && !toggle_ok { 1int } else { 0int }) + (
        if shortcuts.clear_drawing@.len() > 0 && !clear_ok { 1int } else { 0int }),
{
    proof {
        lemma_each_unparsable_binding_is_reported(*shortcuts, *labels, toggle_ok, clear_ok);
    }
    let mut failed: Vec<String> = Vec::new();
    if !shortcuts.toggle_drawing.as_str().is_empty() && !toggle_ok {
        failed.push(labelled_binding(labels.toggle_drawing, shortcuts.toggle_drawing.as_str()));
    }
    if !shortcuts.clear_drawing.as_str().is_empty() && !clear_ok {
        failed.push(labelled_binding(labels.clear_drawing, shortcuts.clear_drawing.as_str()));
    }
    assert(texts(failed@) =~= invalid_errors(*shortcuts, *labels, toggle_ok, clear_ok));
    failed
}

/// A non-empty accelerator that fails to parse is a hard validation error.
pub fn invalid_shortcut_errors(shortcuts: &Shortcuts, labels: &Strings) -> (errors: Vec<String>)
    ensures
        texts(errors@) == invalid_errors(
            *shortcuts,
            *labels,
            accelerator_parses(shortcuts.toggle_drawing@),
            accelerator_parses(shortcuts.clear_drawing@),
        ),
{
    let toggle_ok = shortcut_parses(shortcuts.toggle_drawing.as_str());
    let clear_ok = shortcut_parses(shortcuts.clear_drawing.as_str());
    invalid_shortcut_errors_given(shortcuts, labels, toggle_ok, clear_ok)
}

/// The outcome of saving shortcuts when validation found `errors`: a refusal
/// carrying them, or `None` when there are none and the save goes ahead.
pub fn refusal_for(errors: Vec<String>) -> (r: Option<SaveResult>)
    ensures
        errors@.len() == 0 ==> r is None,
        errors@.len() > 0 ==> (r matches Some(res) && !res.ok && res.failed == Some(errors)),
{
    if errors.len() == 0 {
        None
    } else {
        Some(SaveResult { ok: false, failed: Some(errors) })
    }
}

/// The outcome of a save that went through, given the bindings the OS
/// refused (`warnings`): saved, with the warnings when there are any.
pub fn saved_with(warnings: Vec<String>) -> (r: SaveResult)
    ensures
        r.ok,
        warnings@.len() == 0 ==> r.failed is None,
        warnings@.len() > 0 ==> r.failed == Some(warnings),
{
    if warnings.len() == 0 {
        SaveResult { ok: true, failed: None }
    } else {
        SaveResult { ok: true, failed: Some(warnings) }
    }
}

/// Hard validation of a shortcut save: invalid accelerators first, then
/// duplicates.
pub fn shortcut_validation_errors(shortcuts: &Shortcuts, labels: &Strings) -> (errors: Vec<String>)
    ensures
        ({
            let dup = {
                let t = shortcuts.toggle_drawing@;
                let c = shortcuts.clear_drawing@;
                if t.len() > 0 && c.len() > 0 && t == c {
                    seq![duplicate_message(labels.toggle_drawing@, labels.clear_drawing@)]
                } else {
                    seq![]
                }
            };
            texts(errors@) == invalid_errors(
                *shortcuts,
                *labels,
                accelerator_parses(shortcuts.toggle_drawing@),
                accelerator_parses(shortcuts.clear_drawing@),
            ) + dup
        }),
        shortcuts.toggle_drawing@.len() > 0 && !accelerator_parses(shortcuts.toggle_drawing@) ==> texts(
            errors@,
        ).contains(labelled(labels.toggle_drawing@, shortcuts.toggle_drawing@)),
        shortcuts.clear_drawing@.len() > 0 && !accelerator_parses(shortcuts.clear_drawing@) ==> texts(
            errors@,
        ).contains(labelled(labels.clear_drawing@, shortcuts.clear_drawing@)),
{
    proof {
        lemma_each_unparsable_binding_is_reported(
            *shortcuts,
            *labels,
            accelerator_parses(shortcuts.toggle_drawing@),
            accelerator_parses(shortcuts.clear_drawing@),
        );
    }
    let mut errors = invalid_shortcut_errors(shortcuts, labels);
    let mut dup = duplicate_shortcut_errors(shortcuts, labels);
    let ghost e0 = errors@;
    let ghost d0 = dup@;
    errors.append(&mut dup);
    assert(texts(errors@) =~= texts(e0) + texts(d0));
    proof {
        let inv = texts(e0);
        let all = texts(errors@);
        assert forall|m: Seq<char>| inv.contains(m) implies all.contains(m) by {
            let k = choose|k: int| 0 <= k < inv.len() && inv[k] == m;
            assert(all[k] == inv[k]);
        }
    }
    errors
}

/// Destinations that the app may open in the browser.
pub open spec fn allowed_url(url: Seq<char>) -> bool {
    ||| has_prefix(url, "https://github.com/"@)
    ||| has_prefix(url, "https://apps.microsoft.com/"@)
    ||| has_prefix(url, "https://marker.cn/"@)
}

/// Whether `url` starts with one of the allowed prefixes.
pub fn is_allowed_open_url(url: &str) -> (b: bool)
    ensures
        b == allowed_url(url@),
{
    starts_with(url, "https://github.com/") || starts_with(url, "https://apps.microsoft.com/")
        || starts_with(url, "https://marker.cn/")
}


/// The overlay windows that replay an undo or redo of an op: its owner, or
/// every overlay for a global op (empty owner).
pub fn timeline_replay_targets(op: &TimelineOp, overlay_labels: &Vec<String>) -> (targets: Vec<String>)
    ensures
        op.owner@.len() == 0 ==> texts(targets@) == texts(overlay_labels@),
        op.owner@.len() > 0 ==> texts(targets@) == seq![op.owner@],
{
    if op.owner.as_str().is_empty() {
        let n = overlay_labels.len();
        let mut targets: Vec<String> = Vec::new();
        let mut i: usize = 0;
        while i < n
            invariant
                n == overlay_labels@.len(),
                i <= n,
                texts(targets@) == texts(overlay_labels@).take(i as int),
            decreases n - i,
        {
            let ghost before = targets@;
            targets.push(overlay_labels[i].clone());
            assert(targets@ == before.push(overlay_labels@[i as int]));
            assert(texts(targets@) =~= texts(before).push(overlay_labels@[i as int]@));
            assert(texts(targets@) =~= texts(overlay_labels@).take(i as int + 1));
            i = i + 1;
        }
        assert(texts(overlay_labels@).take(n as int) =~= texts(overlay_labels@));
        targets
    } else {
        let mut targets: Vec<String> = Vec::new();
        targets.push(op.owner.clone());
        assert(texts(targets@) =~= seq![op.owner@]);
        targets
    }
}

} // verus!
