use marker::overlay_windows::{
    assign_labels, diff_topology, dynamic_label, find_window_for_monitor, label_for_point, label_sort_key,
    overlay_labels_in_order, topology_origin, window_order, MonitorEntry, MonitorRegistry, MonitorSpec,
    TopoChange,
};

fn mon(x: i32, y: i32, w: u32, h: u32, scale: f64, name: Option<&str>) -> MonitorSpec {
    MonitorSpec {
        x,
        y,
        width: w,
        height: h,
        scale_bits: scale.to_bits(),
        scale_percent: (scale * 100.0).round() as i32,
        name: name.map(|s| s.to_string()),
    }
}

// ---- MonitorSpec ------------------------------------------------------

#[test]
fn contains_point_is_half_open() {
    let m = mon(0, 0, 1920, 1080, 1.0, None);
    assert!(m.contains_point(0, 0));
    assert!(m.contains_point(1919, 1079));
    assert!(!m.contains_point(1920, 0));
    assert!(!m.contains_point(-1, 0));
}

#[test]
fn topology_key_normalizes_by_bounding_box_origin() {
    // Same arrangement; second has the OS primary on the right monitor,
    // which shifts every absolute coordinate by -1920.
    let a = [mon(0, 0, 1920, 1080, 1.0, Some("A")), mon(1920, 0, 2560, 1440, 1.5, Some("B"))];
    let b = [mon(-1920, 0, 1920, 1080, 1.0, Some("A")), mon(0, 0, 2560, 1440, 1.5, Some("B"))];
    let origin_a = topology_origin(&a);
    let origin_b = topology_origin(&b);
    assert_eq!(a[1].topology_key(origin_a), b[1].topology_key(origin_b));
    assert_eq!(a[0].topology_key(origin_a), b[0].topology_key(origin_b));
}

// ---- diff_topology ----------------------------------------------------

#[test]
fn diff_identical_topologies_emits_nothing() {
    let t = [mon(0, 0, 1920, 1080, 1.0, Some("A")), mon(1920, 0, 1920, 1080, 1.0, Some("B"))];
    assert!(diff_topology(&t, &t).is_empty());
}

#[test]
fn diff_detects_added_and_removed() {
    let old = [mon(0, 0, 1920, 1080, 1.0, Some("A"))];
    let new = [
        mon(0, 0, 1920, 1080, 1.0, Some("A")),
        mon(1920, 0, 1920, 1080, 1.0, Some("B")),
    ];
    let changes = diff_topology(&old, &new);
    assert_eq!(changes, vec![TopoChange::Added(new[1].clone())]);

    let changes = diff_topology(&new, &old);
    assert_eq!(changes, vec![TopoChange::Removed(new[1].clone())]);
}

#[test]
fn diff_name_match_reports_reposition_on_resolution_change() {
    let old = [
        mon(0, 0, 1920, 1080, 1.0, Some("A")),
        mon(1920, 0, 1920, 1080, 1.0, Some("B")),
    ];
    // B switches resolution: geometry differs but the name survives.
    let new = [
        mon(0, 0, 1920, 1080, 1.0, Some("A")),
        mon(1920, 0, 1280, 720, 1.0, Some("B")),
    ];
    let changes = diff_topology(&old, &new);
    assert_eq!(
        changes,
        vec![TopoChange::Repositioned {
            from: old[1].clone(),
            to: new[1].clone()
        }]
    );
}

#[test]
fn diff_geometry_match_survives_windows_renumbering() {
    let old = [
        mon(0, 0, 1920, 1080, 1.0, Some("\\\\.\\DISPLAY1")),
        mon(1920, 0, 1920, 1080, 1.5, Some("\\\\.\\DISPLAY2")),
    ];
    // Replug renumbers the OS names but the arrangement is unchanged.
    let new = [
        mon(0, 0, 1920, 1080, 1.0, Some("\\\\.\\DISPLAY2")),
        mon(1920, 0, 1920, 1080, 1.5, Some("\\\\.\\DISPLAY1")),
    ];
    assert!(diff_topology(&old, &new).is_empty());
}

#[test]
fn diff_is_independent_of_input_order() {
    let old = [
        mon(1920, 0, 1920, 1080, 1.0, Some("B")),
        mon(0, 0, 1920, 1080, 1.0, Some("A")),
    ];
    let new = [
        mon(0, 0, 1920, 1080, 1.0, Some("A")),
        mon(-1920, 0, 1920, 1080, 1.0, Some("B")),
    ];
    // B moved from the right of A to the left: one reposition, order-agnostic.
    let changes = diff_topology(&old, &new);
    assert!(matches!(changes.as_slice(), &[TopoChange::Repositioned { .. }]));
}

// ---- assign_labels ----------------------------------------------------

#[test]
fn assign_labels_cursor_screen_gets_static_window() {
    let monitors = [
        mon(0, 0, 1920, 1080, 1.0, Some("A")),
        mon(1920, 0, 1920, 1080, 1.0, Some("B")),
    ];
    let pairs = assign_labels(&monitors, &monitors[1]);
    assert_eq!(pairs[0].0, "overlay");
    assert_eq!(pairs[0].1, monitors[1]);
    assert_eq!(pairs.len(), 2);
    assert_eq!(pairs[1].0, "overlay-2");
    assert_eq!(pairs[1].1, monitors[0]);
}

#[test]
fn assign_labels_remaining_in_reading_order() {
    // Two extra monitors stacked above/below and right.
    let monitors = [
        mon(0, 0, 1920, 1080, 1.0, Some("A")),     // cursor
        mon(0, -1080, 1920, 1080, 1.0, Some("T")), // above
        mon(1920, 0, 1920, 1080, 1.0, Some("R")),  // right
    ];
    let pairs = assign_labels(&monitors, &monitors[0]);
    let dynamic: Vec<(&str, &MonitorSpec)> = pairs[1..]
        .iter()
        .map(|(l, m)| (l.as_str(), m))
        .collect();
    // Reading order: top-to-bottom first, so the monitor above (T) gets
    // the lower label before the one to the right (R).
    assert_eq!(
        dynamic,
        vec![("overlay-2", &monitors[1]), ("overlay-3", &monitors[2])]
    );
}

#[test]
fn assign_labels_single_monitor_only_static() {
    let monitors = [mon(0, 0, 1920, 1080, 1.0, Some("A"))];
    let pairs = assign_labels(&monitors, &monitors[0]);
    assert_eq!(pairs.len(), 1);
    assert_eq!(pairs[0].0, "overlay");
}

// ---- find_window_for_monitor -------------------------------------------

#[test]
fn find_window_exact_geometry_match_wins() {
    let mut registry = MonitorRegistry::new();
    registry.insert(
        "overlay-2".into(),
        MonitorEntry {
            spec: mon(1920, 0, 1920, 1080, 1.0, Some("\\\\.\\DISPLAY9")),
            hidden: true,
        },
    );
    let monitor = mon(1920, 0, 1920, 1080, 1.0, Some("\\\\.\\DISPLAY1"));
    assert_eq!(
        find_window_for_monitor(&registry, &monitor).as_deref(),
        Some("overlay-2")
    );
}

#[test]
fn find_window_falls_back_to_name() {
    let mut registry = MonitorRegistry::new();
    registry.insert(
        "overlay-2".into(),
        MonitorEntry {
            spec: mon(0, 0, 1280, 720, 1.0, Some("B")),
            hidden: true,
        },
    );
    // Same name, different resolution (user changed it while unplugged).
    let monitor = mon(1920, 0, 1920, 1080, 1.0, Some("B"));
    assert_eq!(
        find_window_for_monitor(&registry, &monitor).as_deref(),
        Some("overlay-2")
    );
}

#[test]
fn find_window_no_match_returns_none() {
    let mut registry = MonitorRegistry::new();
    registry.insert(
        "overlay-2".into(),
        MonitorEntry {
            spec: mon(0, 0, 1280, 720, 1.0, Some("B")),
            hidden: true,
        },
    );
    let monitor = mon(1920, 0, 1920, 1080, 1.5, Some("C"));
    assert_eq!(find_window_for_monitor(&registry, &monitor), None);
}

// ---- labels ------------------------------------------------------------

#[test]
fn label_sort_key_static_first_then_numeric() {
    let mut labels = vec!["overlay-10", "overlay", "overlay-2"];
    labels.sort_by_key(|l| label_sort_key(l));
    assert_eq!(labels, vec!["overlay", "overlay-2", "overlay-10"]);
}

// ---- own tests -----------------------------------------------------------

#[test]
fn label_sort_key_parses_like_str_parse() {
    assert_eq!(label_sort_key("overlay"), (false, 0));
    assert_eq!(label_sort_key("overlay-7"), (true, 7));
    assert_eq!(label_sort_key("overlay-+7"), (true, 7));
    assert_eq!(label_sort_key("overlay-"), (false, 0));
    assert_eq!(label_sort_key("overlay-x"), (false, 0));
    assert_eq!(label_sort_key("overlay--1"), (false, 0));
    assert_eq!(label_sort_key("toolbar"), (false, 0));
    assert_eq!(label_sort_key("overlay-99999999999999999999999"), (false, 0));
    assert_eq!(label_sort_key("overlay-007"), (true, 7));
}

#[test]
fn dynamic_labels_are_numbered() {
    assert_eq!(dynamic_label(2), "overlay-2");
    assert_eq!(dynamic_label(10), "overlay-10");
    assert_eq!(dynamic_label(0), "overlay-0");
    assert_eq!(label_sort_key(&dynamic_label(123)), (true, 123));
}

#[test]
fn overlay_labels_filtered_and_ordered() {
    let labels = vec![
        "toolbar".to_string(),
        "overlay-10".to_string(),
        "settings".to_string(),
        "overlay-2".to_string(),
        "overlay".to_string(),
    ];
    assert_eq!(
        overlay_labels_in_order(labels),
        vec!["overlay".to_string(), "overlay-2".to_string(), "overlay-10".to_string()]
    );
}

#[test]
fn window_order_is_stable_on_ties() {
    let labels = vec!["overlay-3".to_string(), "x".to_string(), "overlay".to_string(), "overlay-1".to_string()];
    assert_eq!(window_order(&labels), vec![1, 2, 3, 0]);
}

#[test]
fn assign_labels_ties_keep_input_order() {
    let monitors = [
        mon(0, 0, 100, 100, 1.0, Some("C")),
        mon(5, 5, 100, 100, 1.0, Some("X")),
        mon(5, 5, 100, 100, 2.0, Some("Y")),
    ];
    let pairs = assign_labels(&monitors, &monitors[0]);
    assert_eq!(pairs[1].1, monitors[1]);
    assert_eq!(pairs[2].1, monitors[2]);
}

#[test]
fn assign_labels_cursor_not_listed_drops_the_last_in_reading_order() {
    let monitors = [
        mon(0, 0, 100, 100, 1.0, Some("A")),
        mon(0, 100, 100, 100, 1.0, Some("B")),
    ];
    let cursor = mon(500, 500, 100, 100, 1.0, Some("Z"));
    let pairs = assign_labels(&monitors, &cursor);
    assert_eq!(pairs.len(), 2);
    assert_eq!(pairs[0].1, cursor);
    assert_eq!(pairs[1].1, monitors[0]);
}

#[test]
fn assign_labels_no_monitors() {
    let cursor = mon(0, 0, 100, 100, 1.0, None);
    let pairs = assign_labels(&[], &cursor);
    assert_eq!(pairs.len(), 1);
    assert_eq!(pairs[0].0, "overlay");
}

#[test]
fn diff_reports_changes_in_old_then_new_order() {
    let old = [mon(0, 0, 10, 10, 1.0, Some("A")), mon(10, 0, 10, 10, 1.0, None)];
    let new = [mon(20, 0, 10, 10, 1.0, None), mon(0, 0, 10, 10, 1.0, Some("Q"))];
    let changes = diff_topology(&old, &new);
    assert_eq!(
        changes,
        vec![TopoChange::Removed(old[1].clone()), TopoChange::Added(new[0].clone())]
    );
}

#[test]
fn diff_scale_change_is_a_reposition_by_name() {
    let old = [mon(0, 0, 10, 10, 1.0, Some("A"))];
    let new = [mon(0, 0, 10, 10, 1.25, Some("A"))];
    let changes = diff_topology(&old, &new);
    assert_eq!(changes, vec![TopoChange::Repositioned { from: old[0].clone(), to: new[0].clone() }]);
}

#[test]
fn topology_origin_of_nothing_is_zero() {
    assert_eq!(topology_origin(&[]), (0, 0));
    let t = [mon(5, -3, 1, 1, 1.0, None), mon(-2, 7, 1, 1, 1.0, None)];
    assert_eq!(topology_origin(&t), (-2, -3));
}

#[test]
fn registry_keeps_label_order_and_replaces() {
    let mut registry = MonitorRegistry::new();
    assert!(registry.is_empty());
    registry.insert("overlay-3".into(), MonitorEntry { spec: mon(0, 0, 1, 1, 1.0, None), hidden: false });
    registry.insert("overlay".into(), MonitorEntry { spec: mon(5, 0, 1, 1, 1.0, None), hidden: false });
    registry.insert("overlay-2".into(), MonitorEntry { spec: mon(9, 0, 1, 1, 1.0, None), hidden: false });
    registry.insert("overlay".into(), MonitorEntry { spec: mon(7, 0, 1, 1, 1.0, None), hidden: true });
    let labels: Vec<&str> = registry.entries().iter().map(|(l, _)| l.as_str()).collect();
    assert_eq!(labels, vec!["overlay", "overlay-2", "overlay-3"]);
    assert_eq!(registry.len(), 3);
    let e = registry.get("overlay").unwrap();
    assert_eq!(e.spec.x, 7);
    assert!(e.hidden);
    assert!(registry.get("overlay-9").is_none());
}

#[test]
fn registry_mark_hidden() {
    let mut registry = MonitorRegistry::new();
    registry.insert("overlay".into(), MonitorEntry { spec: mon(0, 0, 1, 1, 1.0, None), hidden: false });
    registry.insert("overlay-2".into(), MonitorEntry { spec: mon(1, 0, 1, 1, 1.0, None), hidden: false });
    registry.mark_hidden("overlay-2");
    registry.mark_hidden("overlay-5");
    assert!(!registry.get("overlay").unwrap().hidden);
    assert!(registry.get("overlay-2").unwrap().hidden);
    assert_eq!(registry.len(), 2);
}

#[test]
fn label_for_point_first_in_label_order() {
    let mut registry = MonitorRegistry::new();
    registry.insert("overlay-2".into(), MonitorEntry { spec: mon(0, 0, 100, 100, 1.0, None), hidden: false });
    registry.insert("overlay".into(), MonitorEntry { spec: mon(50, 0, 100, 100, 1.0, None), hidden: false });
    assert_eq!(label_for_point(&registry, 60, 10).as_deref(), Some("overlay"));
    assert_eq!(label_for_point(&registry, 10, 10).as_deref(), Some("overlay-2"));
    assert_eq!(label_for_point(&registry, 500, 10), None);
}

#[test]
fn find_window_prefers_first_label_on_ties() {
    let mut registry = MonitorRegistry::new();
    registry.insert("overlay-3".into(), MonitorEntry { spec: mon(0, 0, 1, 1, 1.0, Some("N")), hidden: true });
    registry.insert("overlay-2".into(), MonitorEntry { spec: mon(9, 9, 1, 1, 1.0, Some("N")), hidden: true });
    let monitor = mon(4, 4, 1, 1, 1.0, Some("N"));
    assert_eq!(find_window_for_monitor(&registry, &monitor).as_deref(), Some("overlay-2"));
    let unnamed = mon(4, 4, 1, 1, 1.0, None);
    assert_eq!(find_window_for_monitor(&registry, &unnamed), None);
}

#[test]
fn record_activation_shows_assigned_and_hides_the_rest() {
    let mut registry = MonitorRegistry::new();
    registry.insert("overlay".into(), MonitorEntry { spec: mon(0, 0, 10, 10, 1.0, None), hidden: true });
    registry.insert("overlay-3".into(), MonitorEntry { spec: mon(30, 0, 10, 10, 1.0, None), hidden: false });
    let monitors = [mon(0, 0, 10, 10, 1.0, Some("A")), mon(10, 0, 10, 10, 1.0, Some("B"))];
    let pairs = assign_labels(&monitors, &monitors[1]);
    let overlay_labels = vec!["overlay".to_string(), "overlay-2".to_string(), "overlay-3".to_string()];
    registry.record_activation(&pairs, &overlay_labels);
    let e = registry.get("overlay").unwrap();
    assert_eq!(e.spec, monitors[1]);
    assert!(!e.hidden);
    let e = registry.get("overlay-2").unwrap();
    assert_eq!(e.spec, monitors[0]);
    assert!(!e.hidden);
    let e = registry.get("overlay-3").unwrap();
    assert!(e.hidden);
    assert_eq!(e.spec.x, 30);
}

#[test]
fn diff_from_and_to_nothing() {
    let t = [mon(0, 0, 10, 10, 1.0, Some("A")), mon(10, 0, 10, 10, 1.0, None)];
    assert_eq!(
        diff_topology(&[], &t),
        vec![TopoChange::Added(t[0].clone()), TopoChange::Added(t[1].clone())]
    );
    assert_eq!(
        diff_topology(&t, &[]),
        vec![TopoChange::Removed(t[0].clone()), TopoChange::Removed(t[1].clone())]
    );
}

#[test]
fn assigned_labels_are_distinct_and_cover_every_monitor() {
    let monitors = [
        mon(0, 0, 10, 10, 1.0, None),
        mon(10, 0, 10, 10, 1.0, None),
        mon(20, 0, 10, 10, 1.0, None),
        mon(30, 0, 10, 10, 1.0, None),
    ];
    let pairs = assign_labels(&monitors, &monitors[2]);
    let labels: Vec<&str> = pairs.iter().map(|(l, _)| l.as_str()).collect();
    assert_eq!(labels, vec!["overlay", "overlay-2", "overlay-3", "overlay-4"]);
    let xs: Vec<i32> = pairs.iter().map(|(_, m)| m.x).collect();
    assert_eq!(xs, vec![20, 0, 10, 30]);
}

#[test]
fn assign_labels_tells_scales_apart_exactly() {
    // Both scales round to 100 %, yet the monitors differ.
    let monitors = [
        mon(0, 0, 1920, 1080, 1.0, Some("A")),
        mon(0, 0, 1920, 1080, 1.004, Some("A")),
    ];
    let pairs = assign_labels(&monitors, &monitors[0]);
    assert_eq!(pairs.len(), 2);
    assert_eq!(pairs[1].0, "overlay-2");
    assert_eq!(pairs[1].1, monitors[1]);
}

#[test]
fn same_monitor_compares_scales_as_doubles() {
    let a = mon(0, 0, 10, 10, 1.0, None);
    assert!(a.same_monitor(&mon(0, 0, 10, 10, 1.0, None)));
    assert!(!a.same_monitor(&mon(0, 0, 10, 10, 1.004, None)));
    assert!(mon(0, 0, 10, 10, 0.0, None).same_monitor(&mon(0, 0, 10, 10, -0.0, None)));
    let nan = mon(0, 0, 10, 10, f64::NAN, None);
    assert!(!nan.same_monitor(&nan));
}
