use wallpaper_shuffler::config::{
    build_assignments, plan_settings, Config, MonitorConfig, DEFAULT_INTERVAL_SECS,
    MIN_INTERVAL_SECS,
};
use wallpaper_shuffler::model::{CycleMode, FitMode, MonitorInfo};

#[test]
fn default_matches_spec() {
    let cfg = Config::default();
    assert_eq!(cfg.interval_secs, DEFAULT_INTERVAL_SECS); // 1800
    assert_eq!(cfg.cycle_mode, CycleMode::Sequential);
    assert_eq!(cfg.fit_mode, FitMode::Fill);
    assert!(cfg.autostart);
    assert!(cfg.monitors.is_empty());
}

#[test]
fn default_interval_is_thirty_minutes() {
    assert_eq!(DEFAULT_INTERVAL_SECS, 1800);
    assert_eq!(MIN_INTERVAL_SECS, 60);
}

#[test]
fn clamped_raises_sub_minimum_to_60() {
    let cfg = Config {
        interval_secs: 0,
        ..Config::default()
    };
    assert_eq!(cfg.clamped().interval_secs, MIN_INTERVAL_SECS);
}

#[test]
fn clamped_raises_1_to_60() {
    let cfg = Config {
        interval_secs: 1,
        ..Config::default()
    };
    assert_eq!(cfg.clamped().interval_secs, MIN_INTERVAL_SECS);
}

#[test]
fn clamped_raises_59_to_60() {
    let cfg = Config {
        interval_secs: 59,
        ..Config::default()
    };
    assert_eq!(cfg.clamped().interval_secs, 60);
}

#[test]
fn clamped_leaves_exactly_60() {
    let cfg = Config {
        interval_secs: 60,
        ..Config::default()
    };
    assert_eq!(cfg.clamped().interval_secs, 60);
}

#[test]
fn clamped_leaves_valid_above_minimum() {
    let cfg = Config {
        interval_secs: 3600,
        ..Config::default()
    };
    assert_eq!(cfg.clamped().interval_secs, 3600);
}

#[test]
fn clamped_leaves_default_interval_unchanged() {
    let cfg = Config::default();
    assert_eq!(cfg.clamped().interval_secs, DEFAULT_INTERVAL_SECS);
}

#[test]
fn clamped_twice_is_clamped_once() {
    let once = Config { interval_secs: 7, ..Config::default() }.clamped();
    let twice = Config { interval_secs: 7, ..Config::default() }.clamped().clamped();
    assert_eq!(once, twice);
}

#[test]
fn clamped_keeps_other_fields() {
    let cfg = Config {
        interval_secs: 5,
        cycle_mode: CycleMode::Shuffle,
        fit_mode: FitMode::Tile,
        autostart: false,
        monitors: vec![("m".to_string(), MonitorConfig { folders: vec!["C:\\w".to_string()] })],
    };
    let c = cfg.clamped();
    assert_eq!(c.interval_secs, 60);
    assert_eq!(c.cycle_mode, CycleMode::Shuffle);
    assert_eq!(c.fit_mode, FitMode::Tile);
    assert!(!c.autostart);
    assert_eq!(c.monitors.len(), 1);
}

#[test]
fn set_folders_inserts_in_id_order_and_reads_back() {
    let mut cfg = Config::default();
    cfg.set_folders(&"monitor-2".to_string(), vec!["C:\\Portrait".to_string()]);
    cfg.set_folders(&"monitor-1".to_string(), vec!["C:\\Landscape".to_string()]);
    cfg.set_folders(&"monitor-3".to_string(), vec![]);
    let ids: Vec<&str> = cfg.monitors.iter().map(|(id, _)| id.as_str()).collect();
    assert_eq!(ids, vec!["monitor-1", "monitor-2", "monitor-3"]);
    assert!(cfg.is_well_formed());
    assert_eq!(cfg.folders_for(&"monitor-1".to_string()), vec!["C:\\Landscape".to_string()]);
    assert_eq!(cfg.folders_for(&"monitor-2".to_string()), vec!["C:\\Portrait".to_string()]);
    assert!(cfg.folders_for(&"monitor-3".to_string()).is_empty());
    assert!(cfg.folders_for(&"unknown".to_string()).is_empty());
}

#[test]
fn set_folders_replaces_existing_assignment() {
    let mut cfg = Config::default();
    cfg.set_folders(&"m".to_string(), vec!["a".to_string()]);
    cfg.set_folders(&"m".to_string(), vec!["b".to_string(), "c".to_string()]);
    assert_eq!(cfg.monitors.len(), 1);
    assert_eq!(cfg.folders_for(&"m".to_string()), vec!["b".to_string(), "c".to_string()]);
}

#[test]
fn unsorted_ids_are_not_well_formed() {
    let cfg = Config {
        monitors: vec![
            ("b".to_string(), MonitorConfig::default()),
            ("a".to_string(), MonitorConfig::default()),
        ],
        ..Config::default()
    };
    assert!(!cfg.is_well_formed());
    let dup = Config {
        monitors: vec![
            ("a".to_string(), MonitorConfig::default()),
            ("a".to_string(), MonitorConfig::default()),
        ],
        ..Config::default()
    };
    assert!(!dup.is_well_formed());
}

fn monitor(id: &str, available: bool) -> MonitorInfo {
    MonitorInfo {
        id: id.to_string(),
        width: if available { 1920 } else { 0 },
        height: if available { 1080 } else { 0 },
        orientation: None,
        available,
    }
}

#[test]
fn build_assignments_skips_unavailable_and_defaults_to_no_folders() {
    let mut cfg = Config::default();
    cfg.set_folders(&"a".to_string(), vec!["/pics/a".to_string()]);
    cfg.set_folders(&"c".to_string(), vec!["/pics/c".to_string()]);
    let monitors = vec![monitor("c", true), monitor("b", false), monitor("a", true), monitor("d", true)];
    let a = build_assignments(&monitors, &cfg);
    assert_eq!(
        a,
        vec![
            ("c".to_string(), vec!["/pics/c".to_string()]),
            ("a".to_string(), vec!["/pics/a".to_string()]),
            ("d".to_string(), vec![]),
        ]
    );
}

#[test]
fn apply_working_folders_reports_changes() {
    let mut cfg = Config::default();
    cfg.set_folders(&"a".to_string(), vec!["/x".to_string()]);
    let monitors = vec![monitor("a", true), monitor("b", true)];
    let same = vec![vec!["/x".to_string()], vec![]];
    assert!(!cfg.apply_working_folders(&monitors, &same));
    // an unconfigured monitor now has an explicit empty entry
    assert_eq!(cfg.monitors.len(), 2);
    let edited = vec![vec!["/x".to_string()], vec!["/y".to_string()]];
    assert!(cfg.apply_working_folders(&monitors, &edited));
    assert_eq!(cfg.folders_for(&"b".to_string()), vec!["/y".to_string()]);
    // missing working list => folders cleared
    assert!(cfg.apply_working_folders(&monitors, &vec![]));
    assert!(cfg.folders_for(&"a".to_string()).is_empty());
}

#[test]
fn plan_settings_clamps_and_detects_changes() {
    let current = Config::default();
    let edited = Config {
        interval_secs: 30,
        cycle_mode: CycleMode::PureRandom,
        ..Config::default()
    };
    let plan = plan_settings(&current, edited);
    assert_eq!(plan.config.interval_secs, 60);
    assert!(plan.interval_changed);
    assert!(plan.mode_changed);
    assert!(!plan.fit_changed);
    assert!(!plan.autostart_changed);

    let unchanged = plan_settings(&current, Config::default());
    assert!(!unchanged.interval_changed && !unchanged.mode_changed);
    assert!(!unchanged.fit_changed && !unchanged.autostart_changed);
}
