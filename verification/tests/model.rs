use wallpaper_shuffler::model::{orientation_from_dims, MonitorId, MonitorInfo, Orientation};

#[test]
fn orientation_landscape_when_wider() {
    assert_eq!(orientation_from_dims(1920, 1080), Orientation::Landscape);
}

#[test]
fn orientation_portrait_when_taller() {
    assert_eq!(orientation_from_dims(1080, 1920), Orientation::Portrait);
}

#[test]
fn orientation_landscape_when_square() {
    // equal width and height is not portrait (height > width is false)
    assert_eq!(orientation_from_dims(1000, 1000), Orientation::Landscape);
}

#[test]
fn orientation_portrait_by_one_pixel() {
    assert_eq!(orientation_from_dims(0, 1), Orientation::Portrait);
    assert_eq!(orientation_from_dims(1, 0), Orientation::Landscape);
    assert_eq!(orientation_from_dims(0, 0), Orientation::Landscape);
}

fn sample() -> MonitorInfo {
    MonitorInfo {
        id: MonitorId::from("\\\\?\\DISPLAY#TEST#0001"),
        width: 1920,
        height: 1080,
        orientation: Some(Orientation::Landscape),
        available: true,
    }
}

#[test]
fn sample_monitor_is_available_and_landscape() {
    let m = sample();
    assert!(m.available);
    assert_eq!(m.orientation, Some(Orientation::Landscape));
    assert_eq!(m.width, 1920);
    assert_eq!(m.height, 1080);
}
