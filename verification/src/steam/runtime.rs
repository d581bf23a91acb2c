//! Steam runtime status values.
use vstd::prelude::*;

verus! {

#[derive(Clone, Debug, PartialEq, Eq)]
pub struct SteamAvatarRgba {
    pub width: u32,
    pub height: u32,
    pub rgba: Vec<u8>,
}

#[derive(Clone, Copy, Debug, PartialEq, Eq)]
pub enum SteamRuntimeStatus {
    NotStarted,
    Connecting,
    Connected,
    Unavailable,
}

#[derive(Clone, Copy, Debug, PartialEq, Eq)]
pub enum SteamRuntimeError {
    Unavailable,
    NotConnected,
}

impl SteamRuntimeError {
    /// The error key clients see: `ERR_STEAM_ERROR:` and the reason.
    pub fn message(&self) -> (r: String)
        ensures
            *self is Unavailable ==> r@ == "ERR_STEAM_ERROR:STEAM_UNAVAILABLE"@,
            *self is NotConnected ==> r@ == "ERR_STEAM_ERROR:STEAM_NOT_CONNECTED"@,
    {
        match self {
            SteamRuntimeError::Unavailable => "ERR_STEAM_ERROR:STEAM_UNAVAILABLE".to_owned(),
            SteamRuntimeError::NotConnected => "ERR_STEAM_ERROR:STEAM_NOT_CONNECTED".to_owned(),
        }
    }

    /// The detail part of the error key.
    pub fn error_detail(&self) -> (r: Option<String>)
        ensures
            *self is Unavailable ==> (r matches Some(s) && s@ == "STEAM_UNAVAILABLE"@),
            *self is NotConnected ==> (r matches Some(s) && s@ == "STEAM_NOT_CONNECTED"@),
    {
        match self {
            SteamRuntimeError::Unavailable => Some("STEAM_UNAVAILABLE".to_owned()),
            SteamRuntimeError::NotConnected => Some("STEAM_NOT_CONNECTED".to_owned()),
        }
    }
}

} // verus!
