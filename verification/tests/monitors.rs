use wallpaper_shuffler::model::Orientation;
use wallpaper_shuffler::monitors::{
    adapter_is_active, build_monitor_info, device_path_from_units, dims_from_rect, match_fallback_dims,
    nul_terminated_len,
};
use wallpaper_shuffler::wide::to_wide;

#[test]
fn match_fallback_dims_exact_match() {
    let table = vec![(r"\\?\DISPLAY#ACR0763#5&abc&0&UID0#{GUID}".to_string(), 2560, 1440)];
    let result = match_fallback_dims(r"\\?\DISPLAY#ACR0763#5&abc&0&UID0#{GUID}", &table);
    assert_eq!(result, Some((2560, 1440)));
}

#[test]
fn match_fallback_dims_case_insensitive() {
    let table = vec![(r"\\?\DISPLAY#ACR0763#5&ABC&0&UID0#{GUID}".to_string(), 1920, 1200)];
    let result = match_fallback_dims(r"\\?\display#acr0763#5&abc&0&uid0#{guid}", &table);
    assert_eq!(result, Some((1920, 1200)));
}

#[test]
fn match_fallback_dims_no_match() {
    let table = vec![(r"\\?\DISPLAY#OTHER#1&foo&0&UID0#{GUID}".to_string(), 1920, 1080)];
    let result = match_fallback_dims(r"\\?\DISPLAY#ACR0763#5&abc&0&UID0#{GUID}", &table);
    assert_eq!(result, None);
}

#[test]
fn match_fallback_dims_empty_table() {
    let table: Vec<(String, u32, u32)> = vec![];
    let result = match_fallback_dims(r"\\?\DISPLAY#ACR0763#5&abc&0&UID0#{GUID}", &table);
    assert_eq!(result, None);
}

#[test]
fn match_fallback_dims_first_match_wins() {
    let table = vec![
        ("other".to_string(), 1, 1),
        ("MON".to_string(), 800, 600),
        ("mon".to_string(), 1024, 768),
    ];
    assert_eq!(match_fallback_dims("Mon", &table), Some((800, 600)));
}

#[test]
fn build_monitor_info_primary_dims_available() {
    let mi = build_monitor_info(r"\\?\DISPLAY#TEST#0001".to_string(), Some((1920, 1080)), &[]);
    let mi = mi.expect("should be Some");
    assert!(mi.available);
    assert_eq!(mi.orientation, Some(Orientation::Landscape));
    assert_eq!(mi.width, 1920);
    assert_eq!(mi.height, 1080);
}

#[test]
fn build_monitor_info_primary_wins_over_fallback() {
    let fallback = vec![("id".to_string(), 2560, 1440)];
    let mi = build_monitor_info("id".to_string(), Some((1080, 1920)), &fallback).unwrap();
    assert_eq!((mi.width, mi.height), (1080, 1920));
    assert_eq!(mi.orientation, Some(Orientation::Portrait));
}

#[test]
fn build_monitor_info_fallback_recovered_acer_case() {
    let fallback = vec![(r"\\?\DISPLAY#ACR0763#5&abc&0&UID0#{GUID}".to_string(), 2560, 1440)];
    let mi = build_monitor_info(r"\\?\DISPLAY#ACR0763#5&abc&0&UID0#{GUID}".to_string(), None, &fallback);
    let mi = mi.expect("should be Some via fallback");
    assert!(mi.available);
    assert_eq!(mi.orientation, Some(Orientation::Landscape));
    assert_eq!(mi.width, 2560);
    assert_eq!(mi.height, 1440);
}

#[test]
fn build_monitor_info_unavailable_when_no_primary_and_no_fallback() {
    let mi = build_monitor_info(r"\\?\DISPLAY#UNKNOWN#1&foo&0&UID0#{GUID}".to_string(), None, &[]);
    let mi = mi.expect("should still be Some (not skipped)");
    assert!(!mi.available);
    assert_eq!(mi.orientation, None);
    assert_eq!(mi.width, 0);
    assert_eq!(mi.height, 0);
}

#[test]
fn build_monitor_info_empty_device_path_returns_none() {
    assert!(build_monitor_info("".to_string(), None, &[]).is_none());
}

#[test]
fn build_monitor_info_blank_device_path_returns_none() {
    assert!(build_monitor_info("   ".to_string(), None, &[]).is_none());
    assert!(build_monitor_info("\t\n".to_string(), Some((1, 1)), &[]).is_none());
}

#[test]
fn dims_from_rect_uses_absolute_extent() {
    assert_eq!(dims_from_rect(0, 0, 1920, 1080), Some((1920, 1080)));
    assert_eq!(dims_from_rect(-1080, 0, 0, 1920), Some((1080, 1920)));
    assert_eq!(dims_from_rect(100, 50, 0, 0), Some((100, 50)));
    assert_eq!(dims_from_rect(10, 10, 10, 500), None);
    assert_eq!(dims_from_rect(0, 7, 300, 7), None);
}

#[test]
fn adapter_activity_flag() {
    assert!(adapter_is_active(1));
    assert!(adapter_is_active(5));
    assert!(!adapter_is_active(0));
    assert!(!adapter_is_active(4));
}

#[test]
fn device_path_decoding() {
    let mut units = to_wide(r"\\?\DISPLAY#X");
    units.extend_from_slice(&[65, 66]);
    assert_eq!(nul_terminated_len(&units), 13);
    assert_eq!(device_path_from_units(&units), Some(r"\\?\DISPLAY#X".to_string()));
    assert_eq!(device_path_from_units(&[0, 65]), None);
    assert_eq!(device_path_from_units(&[]), None);
    // an unpaired surrogate does not decode
    assert_eq!(device_path_from_units(&[0xD800, 0]), None);
    // no terminator: the whole buffer
    assert_eq!(device_path_from_units(&[72, 105]), Some("Hi".to_string()));
}

/// An id written as a wide string reads back unchanged, characters outside
/// the Basic Multilingual Plane included.
#[test]
fn wide_id_reads_back() {
    for id in [r"\\?\DISPLAY#DELA1B2#5&abc&0&UID4352#{e6f07b5f}", "écran-😀", "x"] {
        assert_eq!(device_path_from_units(&to_wide(id)), Some(id.to_string()));
    }
}
