//! Device-level value types: the operating mode, static configuration, and
//! the application error taxonomy, with the mode decision taken on wake.

use vstd::prelude::*;

verus! {

/// The device's operating mode.
#[derive(Debug)]
pub enum Mode {
    Initialize,
    Setting,
    Normal,
    LowPower,
}

/// Static per-device configuration.
#[derive(Debug, Clone)]
pub struct AppConfig {
    pub device_id: u8,
}

/// The application error taxonomy; each variant carries its message text.
#[derive(Debug)]
pub enum AppError {
    WifiError(String),
    NetworkError(String),
    UnexpectedError(String),
}

impl AppError {
    /// The message text carried by this error.
    pub fn message(&self) -> (r: &String)
        ensures
            (self matches AppError::WifiError(m) ==> r@ == m@),
            (self matches AppError::NetworkError(m) ==> r@ == m@),
            (self matches AppError::UnexpectedError(m) ==> r@ == m@),
    {
        match self {
            AppError::WifiError(m) => m,
            AppError::NetworkError(m) => m,
            AppError::UnexpectedError(m) => m,
        }
    }
}

/// The mode taken on wake: forced provisioning or absent settings select
/// `Initialize`; otherwise the device proceeds normally.
pub fn decide_mode(force_initialize: bool, have_settings: bool) -> (r: Mode)
    ensures
        (force_initialize || !have_settings) ==> r is Initialize,
        (!force_initialize && have_settings) ==> r is Normal,
{
    if force_initialize || !have_settings {
        Mode::Initialize
    } else {
        Mode::Normal
    }
}

} // verus!
