use cadscene::snap::{all_snap_modes, SnapType, Snapper, DWELL_THRESHOLD};

#[test]
fn default_modes_are_the_common_seven() {
    let s: Snapper<(i32, i32)> = Snapper::default();
    assert!(!s.snap_enabled);
    assert!(!s.is_active());
    for t in [
        SnapType::Endpoint,
        SnapType::Midpoint,
        SnapType::Center,
        SnapType::Node,
        SnapType::Quadrant,
        SnapType::Intersection,
        SnapType::Nearest,
    ] {
        assert!(s.is_on(t));
    }
    for t in [SnapType::Extension, SnapType::Tangent, SnapType::Grid, SnapType::Parallel] {
        assert!(!s.is_on(t));
    }
    assert!(!s.all_on());
    assert!(!s.none_on());
}

#[test]
fn toggles_and_bulk_switches() {
    let mut s: Snapper<(i32, i32)> = Snapper::new();
    s.toggle_global();
    assert!(s.is_active());
    s.toggle(SnapType::Grid);
    assert!(s.is_on(SnapType::Grid));
    s.toggle(SnapType::Grid);
    assert!(!s.is_on(SnapType::Grid));
    s.enable_all();
    assert!(s.all_on());
    s.disable_all();
    assert!(s.none_on());
    assert!(!s.is_active());
    s.toggle_global();
    assert!(!s.snap_enabled);
}

#[test]
fn modes_in_popup_order_with_labels() {
    let modes = all_snap_modes();
    assert_eq!(modes.len(), 14);
    assert_eq!(modes[0], SnapType::Endpoint);
    assert_eq!(modes[11], SnapType::ApparentIntersection);
    assert_eq!(modes[13], SnapType::Grid);
    assert_eq!(SnapType::ApparentIntersection.label(), "Apparent Intersection");
    for (i, m) in modes.iter().enumerate() {
        assert_eq!(m.code() as usize, i);
    }
}

#[test]
fn dwell_acquires_after_threshold_and_keeps_four() {
    let mut s: Snapper<(i32, i32)> = Snapper::new();
    s.otrack_enabled = true;
    for k in 0..6 {
        let p = (k, k);
        s.update_otrack_dwell(Some(p), false, false);
        assert_eq!(s.dwell_count, 1);
        for _ in 1..DWELL_THRESHOLD {
            s.update_otrack_dwell(Some(p), true, false);
        }
        assert_eq!(s.dwell_count, DWELL_THRESHOLD);
    }
    assert_eq!(s.tracking_points, vec![(2, 2), (3, 3), (4, 4), (5, 5)]);
    // staying longer does not acquire again
    s.update_otrack_dwell(Some((5, 5)), true, false);
    assert_eq!(s.tracking_points.len(), 4);
    // a point near an acquired one is not added
    s.update_otrack_dwell(Some((9, 9)), false, false);
    for _ in 1..DWELL_THRESHOLD {
        s.update_otrack_dwell(Some((9, 9)), true, true);
    }
    assert_eq!(s.tracking_points, vec![(2, 2), (3, 3), (4, 4), (5, 5)]);
    s.update_otrack_dwell(None, false, false);
    assert_eq!(s.dwell_count, 0);
    assert_eq!(s.last_snap_world, None);
    s.clear_tracking();
    assert!(s.tracking_points.is_empty());
}

#[test]
fn tracking_off_resets_dwell() {
    let mut s: Snapper<u8> = Snapper::new();
    s.dwell_count = 3;
    s.last_snap_world = Some(1);
    s.update_otrack_dwell(Some(1), true, false);
    assert_eq!(s.dwell_count, 0);
    assert_eq!(s.last_snap_world, None);
}
