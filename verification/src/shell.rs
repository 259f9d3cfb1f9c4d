//! The rules behind the desktop-wallpaper and log-in autostart calls: fit
//! positions, error classification and registry result codes.

use vstd::prelude::*;
use crate::model::{AppError, FitMode};
use crate::text::push_char;

verus! {

/// `DESKTOP_WALLPAPER_POSITION` value of a fit mode: `DWPOS_CENTER` = 0,
/// `DWPOS_TILE` = 1, `DWPOS_STRETCH` = 2, `DWPOS_FIT` = 3, `DWPOS_FILL` = 4.
pub open spec fn position_code(fit: FitMode) -> i32 {
    match fit {
        FitMode::Center => 0,
        FitMode::Tile => 1,
        FitMode::Stretch => 2,
        FitMode::Fit => 3,
        FitMode::Fill => 4,
    }
}

/// The shell's wallpaper position for a fit mode.
pub fn fit_position_code(fit: FitMode) -> (code: i32)
    ensures
        code == position_code(fit),
{
    match fit {
        FitMode::Fill => 4,
        FitMode::Fit => 3,
        FitMode::Stretch => 2,
        FitMode::Center => 0,
        FitMode::Tile => 1,
    }
}

/// HRESULT codes of a failed `SetWallpaper` that mean the image itself is
/// missing, unreadable or of an unsupported format: file not found, path not
/// found, access denied, invalid data, invalid name, invalid argument, and
/// `E_FAIL`, which the shell returns for an unsupported image format.
pub open spec fn is_bad_image_code(code: u32) -> bool {
    ||| code == 0x8007_0002
    ||| code == 0x8007_0003
    ||| code == 0x8007_0005
    ||| code == 0x8007_000d
    ||| code == 0x8007_007b
    ||| code == 0x8007_0057
    ||| code == 0x8000_4005
}

/// Classify a failed `SetWallpaper`: a bad-image code becomes `BadImage`
/// (so the scheduler skips the image), anything else `Os`; both carry
/// `message`.
pub fn classify_set_error(code: u32, message: String) -> (e: AppError)
    ensures
        is_bad_image_code(code) ==> (e matches AppError::BadImage(m) && m@ == message@),
        !is_bad_image_code(code) ==> (e matches AppError::Os(m) && m@ == message@),
{
    if code == 0x8007_0002 || code == 0x8007_0003 || code == 0x8007_0005 || code == 0x8007_000d
        || code == 0x8007_007b || code == 0x8007_0057 || code == 0x8000_4005 {
        AppError::BadImage(message)
    } else {
        AppError::Os(message)
    }
}

/// Milliseconds of the rotation timer for an interval in seconds: the
/// interval times 1000, saturating at `u32::MAX` (the longest period a
/// timer takes), and at least one second.
pub open spec fn timer_ms(interval_secs: u64) -> u32 {
    let total = interval_secs * 1000;
    if total > u32::MAX {
        u32::MAX
    } else if total >= 1000 {
        total as u32
    } else {
        1000
    }
}

/// The timer period handed to `SetTimer` (see `timer_ms`).
pub fn timer_interval_ms(interval_secs: u64) -> (ms: u32)
    ensures
        ms == timer_ms(interval_secs),
{
    if interval_secs > (u32::MAX as u64) / 1000 {
        return u32::MAX;
    }
    let total = interval_secs * 1000;
    if total > u32::MAX as u64 {
        u32::MAX
    } else if total >= 1000 {
        total as u32
    } else {
        1000
    }
}

/// `ERROR_SUCCESS`.
pub const ERROR_SUCCESS: u32 = 0;

/// `ERROR_FILE_NOT_FOUND`.
pub const ERROR_FILE_NOT_FOUND: u32 = 2;

/// What querying the autostart value's result code says: present
/// (`Some(true)`), absent (`Some(false)`), or a failure (`None`).
pub fn autostart_presence(code: u32) -> (r: Option<bool>)
    ensures
        code == ERROR_SUCCESS ==> r == Some(true),
        code == ERROR_FILE_NOT_FOUND ==> r == Some(false),
        code != ERROR_SUCCESS && code != ERROR_FILE_NOT_FOUND ==> r is None,
{
    if code == ERROR_SUCCESS {
        Some(true)
    } else if code == ERROR_FILE_NOT_FOUND {
        Some(false)
    } else {
        None
    }
}

/// Whether deleting the autostart value succeeded: deleted, or already
/// absent (deletion is idempotent).
pub fn autostart_removed(code: u32) -> (r: bool)
    ensures
        r == (code == ERROR_SUCCESS || code == ERROR_FILE_NOT_FOUND),
{
    code == ERROR_SUCCESS || code == ERROR_FILE_NOT_FOUND
}

/// The autostart command: the executable's path in double quotes, so paths
/// with spaces survive the shell.
pub fn autostart_command(exe: &str) -> (r: String)
    ensures
        r@ == seq!['"'] + exe@ + seq!['"'],
{
    let mut r = String::new();
    push_char(&mut r, '"');
    r.append(exe);
    push_char(&mut r, '"');
    r
}

/// Byte length of a UTF-16 buffer of `units` code units, as the registry
/// takes it (`(units * 2) as u32`, truncating as `as` does).
pub fn wide_byte_len(units: usize) -> (r: u32)
    requires
        units * 2 <= usize::MAX,
    ensures
        r == ((units * 2) as u32),
{
    (units * 2) as u32
}

} // verus!
