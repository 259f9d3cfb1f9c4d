//! Shared data model: monitor identity, orientation, cycle and fit modes,
//! the error type and the seams that the host program implements.

use vstd::prelude::*;

verus! {

/// Stable monitor identity: the OS device-path string.
pub type MonitorId = String;

/// The operating-system error carried by `AppError::Io`.
#[verifier::external_type_specification]
#[verifier::external_body]
pub struct ExIoError(std::io::Error);

#[derive(Clone, Copy, PartialEq, Eq, Debug, Structural)]
pub enum Orientation {
    Landscape,
    Portrait,
}

#[derive(Clone, Copy, PartialEq, Eq, Debug, Structural)]
pub enum CycleMode {
    Sequential,
    Shuffle,
    PureRandom,
}

#[derive(Clone, Copy, PartialEq, Eq, Debug, Structural)]
pub enum FitMode {
    Fill,
    Fit,
    Stretch,
    Center,
    Tile,
}

/// A live monitor as enumerated from the OS.
#[derive(Clone, Debug, PartialEq)]
pub struct MonitorInfo {
    pub id: MonitorId,
    /// 0 when unknown.
    pub width: u32,
    /// 0 when unknown.
    pub height: u32,
    /// `None` when the dimensions are unavailable.
    pub orientation: Option<Orientation>,
    /// `false` means the monitor is skipped when wallpapers are applied.
    pub available: bool,
}

#[derive(Debug)]
pub enum AppError {
    Io(std::io::Error),
    Config(String),
    Os(String),
    BadImage(String),
}

/// Orientation of a panel of the given physical size.
pub open spec fn orientation_of(width: u32, height: u32) -> Orientation {
    if height > width {
        Orientation::Portrait
    } else {
        Orientation::Landscape
    }
}

/// Portrait when the panel is taller than wide, else Landscape (a square
/// panel is Landscape).
pub fn orientation_from_dims(width: u32, height: u32) -> (o: Orientation)
    ensures
        o == orientation_of(width, height),
{
    if height > width {
        Orientation::Portrait
    } else {
        Orientation::Landscape
    }
}

/// Enumerates the live monitors (implemented by the host program).
pub trait MonitorEnumerator {
    fn enumerate(&self) -> Result<Vec<MonitorInfo>, AppError>;
}

/// Applies one image to one monitor with a fit mode (implemented by the host
/// program).
pub trait WallpaperSetter {
    /// `answer` is an answer this setter gave to a request to show `image`
    /// on `monitor` with `fit`.  Every call of `set` establishes it for the
    /// request made and the answer returned, so a verified caller can state
    /// which requests it made and that it acted on their answers.  A setter
    /// that does not define it (every setter the verifier does not see) lets
    /// it hold of any answer: of such a setter nothing is claimed.
    closed spec fn answered(
        &self,
        monitor: Seq<char>,
        image: Seq<char>,
        fit: FitMode,
        answer: Result<(), AppError>,
    ) -> bool {
        true
    }

    fn set(&self, monitor: &MonitorId, image: &String, fit: FitMode) -> (r: Result<(), AppError>)
        ensures
            self.answered(monitor@, image@, fit, r),
    ;
}

/// Manages the log-in autostart entry (implemented by the host program).
pub trait AutostartManager {
    fn is_enabled(&self) -> Result<bool, AppError>;

    fn set_enabled(&self, on: bool) -> Result<(), AppError>;
}

} // verus!
