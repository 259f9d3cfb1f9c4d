use wallpaper_shuffler::model::{AppError, FitMode};
use wallpaper_shuffler::shell::{
    autostart_command, autostart_presence, autostart_removed, classify_set_error, fit_position_code,
    timer_interval_ms, wide_byte_len,
};
use wallpaper_shuffler::wide::to_wide;

#[test]
fn fit_positions_match_the_shell_constants() {
    assert_eq!(fit_position_code(FitMode::Center), 0);
    assert_eq!(fit_position_code(FitMode::Tile), 1);
    assert_eq!(fit_position_code(FitMode::Stretch), 2);
    assert_eq!(fit_position_code(FitMode::Fit), 3);
    assert_eq!(fit_position_code(FitMode::Fill), 4);
}

#[test]
fn set_error_classification() {
    for code in [0x8007_0002u32, 0x8007_0003, 0x8007_0005, 0x8007_000d, 0x8007_007b, 0x8007_0057, 0x8000_4005] {
        assert!(matches!(classify_set_error(code, "m".into()), AppError::BadImage(ref m) if m == "m"));
    }
    assert!(matches!(classify_set_error(0x8000_4001, "e".into()), AppError::Os(ref m) if m == "e"));
    assert!(matches!(classify_set_error(0, "e".into()), AppError::Os(_)));
}

#[test]
fn registry_codes() {
    assert_eq!(autostart_presence(0), Some(true));
    assert_eq!(autostart_presence(2), Some(false));
    assert_eq!(autostart_presence(5), None);
    assert!(autostart_removed(0));
    assert!(autostart_removed(2));
    assert!(!autostart_removed(5));
}

#[test]
fn autostart_command_is_quoted() {
    assert_eq!(autostart_command(r"C:\Program Files\ws.exe"), "\"C:\\Program Files\\ws.exe\"");
    assert_eq!(wide_byte_len(to_wide("ab").len()), 6);
}

#[test]
fn to_wide_encodes_utf16_with_terminator() {
    assert_eq!(to_wide(""), vec![0]);
    assert_eq!(to_wide("Ab"), vec![65, 98, 0]);
    assert_eq!(to_wide("é€"), vec![0xE9, 0x20AC, 0]);
    assert_eq!(to_wide("😀"), vec![0xD83D, 0xDE00, 0]);
    let s = "x😀y";
    let mut expected: Vec<u16> = s.encode_utf16().collect();
    expected.push(0);
    assert_eq!(to_wide(s), expected);
}

#[test]
fn timer_period_in_milliseconds() {
    assert_eq!(timer_interval_ms(1800), 1_800_000);
    assert_eq!(timer_interval_ms(60), 60_000);
    // below a second the timer still waits one second
    assert_eq!(timer_interval_ms(0), 1000);
    // beyond what a timer takes, the longest period
    assert_eq!(timer_interval_ms(4_294_967), 4_294_967_000);
    assert_eq!(timer_interval_ms(4_294_968), u32::MAX);
    assert_eq!(timer_interval_ms(u64::MAX), u32::MAX);
}
