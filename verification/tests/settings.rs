use wallpaper_shuffler::config::Config;
use wallpaper_shuffler::model::{CycleMode, FitMode, MonitorInfo, Orientation};
use wallpaper_shuffler::settings::{
    add_folder, cycle_mode_from_selection, cycle_mode_index, fit_mode_from_selection, fit_mode_index,
    interval_minutes_for_display, interval_secs_from_minutes, monitor_label, monitor_labels,
    orientation_label, parse_interval_minutes, pause_menu_label, remove_folder, short_id, trim,
    working_folders_from,
};

#[test]
fn short_id_takes_second_hash_token() {
    assert_eq!(short_id(r"\\?\DISPLAY#DELA1B2#5&abc123&0&UID4352#{e6f07b5f}"), "DELA1B2");
    assert_eq!(short_id("a#b"), "b");
    assert_eq!(short_id("a#"), "");
}

#[test]
fn short_id_without_hash_strips_prefix_and_cuts() {
    assert_eq!(short_id(r"\\.\DISPLAY1"), "DISPLAY1");
    assert_eq!(short_id("??..abcdefghijklmnopqrstuvwxyz"), "abcdefghijklmnopqrstuvwx");
    assert_eq!(short_id(""), "");
}

#[test]
fn labels() {
    assert_eq!(orientation_label(Some(Orientation::Landscape)), "Landscape");
    assert_eq!(orientation_label(Some(Orientation::Portrait)), "Portrait");
    assert_eq!(orientation_label(None), "Unknown");
    assert_eq!(monitor_label("x#DEL#y", Some(Orientation::Portrait), true), "DEL [Portrait] (unconfigured)");
    assert_eq!(monitor_label("x#DEL#y", Some(Orientation::Landscape), false), "DEL [Landscape]");
    assert_eq!(pause_menu_label(true), "Resume");
    assert_eq!(pause_menu_label(false), "Pause");
}

fn monitor(id: &str, o: Option<Orientation>) -> MonitorInfo {
    MonitorInfo { id: id.to_string(), width: 1, height: 1, orientation: o, available: true }
}

#[test]
fn monitor_labels_flag_unconfigured() {
    let monitors = vec![monitor("a#M1#", Some(Orientation::Landscape)), monitor("a#M2#", None)];
    let working = vec![vec!["/p".to_string()], vec![]];
    assert_eq!(
        monitor_labels(&monitors, &working),
        vec!["M1 [Landscape]".to_string(), "M2 [Unknown] (unconfigured)".to_string()]
    );
}

#[test]
fn working_folders_start_from_config() {
    let mut cfg = Config::default();
    cfg.set_folders(&"b".to_string(), vec!["/b1".to_string(), "/b2".to_string()]);
    let monitors = vec![monitor("a", None), monitor("b", None)];
    assert_eq!(
        working_folders_from(&monitors, &cfg),
        vec![vec![], vec!["/b1".to_string(), "/b2".to_string()]]
    );
}

#[test]
fn interval_fields() {
    assert_eq!(interval_minutes_for_display(1800), 30);
    assert_eq!(interval_minutes_for_display(59), 1);
    assert_eq!(interval_minutes_for_display(0), 1);
    assert_eq!(interval_secs_from_minutes(0), 60);
    assert_eq!(interval_secs_from_minutes(1), 60);
    assert_eq!(interval_secs_from_minutes(45), 2700);
    assert_eq!(parse_interval_minutes(" 15 \n"), Some(900));
    assert_eq!(parse_interval_minutes("abc"), Some(60));
    assert_eq!(parse_interval_minutes(""), Some(60));
    assert_eq!(parse_interval_minutes("-5"), Some(60));
    assert_eq!(parse_interval_minutes("99999999999999999999"), Some(60));
    assert_eq!(parse_interval_minutes("307445734561825861"), None);
    assert_eq!(parse_interval_minutes("307445734561825860"), Some(307445734561825860 * 60));
}

#[test]
fn trim_both_ends() {
    assert_eq!(trim("  a b \t"), "a b");
    assert_eq!(trim("   "), "");
    assert_eq!(trim("x"), "x");
}

#[test]
fn combo_positions_round_trip() {
    for m in [CycleMode::Sequential, CycleMode::Shuffle, CycleMode::PureRandom] {
        assert_eq!(cycle_mode_from_selection(Some(cycle_mode_index(m))), m);
    }
    for f in [FitMode::Fill, FitMode::Fit, FitMode::Stretch, FitMode::Center, FitMode::Tile] {
        assert_eq!(fit_mode_from_selection(Some(fit_mode_index(f))), f);
    }
    assert_eq!(cycle_mode_from_selection(None), CycleMode::Sequential);
    assert_eq!(cycle_mode_from_selection(Some(9)), CycleMode::Sequential);
    assert_eq!(fit_mode_from_selection(None), FitMode::Fill);
    assert_eq!(fit_mode_from_selection(Some(7)), FitMode::Fill);
}

#[test]
fn folder_list_edits() {
    let mut folders = vec!["/a".to_string()];
    add_folder(&mut folders, "/b".to_string());
    add_folder(&mut folders, "/a".to_string());
    assert_eq!(folders, vec!["/a".to_string(), "/b".to_string()]);
    remove_folder(&mut folders, 5);
    assert_eq!(folders.len(), 2);
    remove_folder(&mut folders, 0);
    assert_eq!(folders, vec!["/b".to_string()]);
}

/// Applying the working lists the window started from changes no folders.
#[test]
fn unedited_working_lists_change_nothing() {
    let mut cfg = Config::default();
    cfg.set_folders(&"b".to_string(), vec!["/b1".to_string()]);
    cfg.set_folders(&"c".to_string(), vec!["/c1".to_string(), "/c2".to_string()]);
    let monitors = vec![monitor("c", None), monitor("a", None), monitor("b", None)];
    let working = working_folders_from(&monitors, &cfg);
    assert!(!cfg.apply_working_folders(&monitors, &working));
    assert_eq!(cfg.folders_for(&"b".to_string()), vec!["/b1".to_string()]);
    assert_eq!(cfg.folders_for(&"c".to_string()), vec!["/c1".to_string(), "/c2".to_string()]);
    assert!(cfg.folders_for(&"a".to_string()).is_empty());
}

/// Whole minutes shown in the window and applied unchanged keep the
/// interval; other intervals are rounded down to the minute.
#[test]
fn interval_field_round_trip() {
    for secs in [60u64, 120, 1800, 86_400] {
        let shown = interval_minutes_for_display(secs).to_string();
        assert_eq!(parse_interval_minutes(&shown), Some(secs));
    }
    let shown = interval_minutes_for_display(90).to_string();
    assert_eq!(parse_interval_minutes(&shown), Some(60));
}

/// The minutes field reads a plain decimal number, as `str::parse` does: an
/// optional `+`, digits only, fitting 64 bits; anything else counts as 0.
#[test]
fn interval_field_number_syntax() {
    assert_eq!(parse_interval_minutes("+5"), Some(300));
    assert_eq!(parse_interval_minutes("007"), Some(420));
    assert_eq!(parse_interval_minutes("+"), Some(60));
    assert_eq!(parse_interval_minutes("1_0"), Some(60));
    assert_eq!(parse_interval_minutes("1 0"), Some(60));
    assert_eq!(parse_interval_minutes("18446744073709551615"), None);
    assert_eq!(parse_interval_minutes("18446744073709551616"), Some(60));
    for text in ["+5", "007", "+", "1_0", "-0", "12a", "99999999999999999999", "42"] {
        let expected = text.parse::<u64>().unwrap_or(0);
        match parse_interval_minutes(text) {
            Some(secs) => assert_eq!(secs, expected.max(1) * 60),
            None => assert!(expected > u64::MAX / 60),
        }
    }
}
