//! Installation state of the text input processor (TIP): the status
//! values, the errors of managing it, the profile manager interface, and
//! how a status follows from what the registry and the profile manager
//! report.
use vstd::prelude::*;

verus! {

/// Installation and activation state of the TIP.
#[derive(Debug, Clone, Copy, PartialEq, Eq, Structural)]
pub enum TipStatus {
    /// No registration of the TIP was found.
    NotInstalled,
    /// Registered but disabled.
    InstalledDisabled,
    /// Registered and enabled.
    InstalledEnabled,
    /// Something is inconsistent (broken registration, no COM, ...).
    Unknown,
}

/// Ways managing the TIP can fail.
#[derive(Debug)]
pub enum TipManagerError {
    /// A registry operation failed.
    Registry(String),
    /// A COM call failed.
    Com(String),
    /// The engine library was not found.
    DllNotFound(std::path::PathBuf),
    /// Administrator rights are needed.
    AccessDenied,
    /// The registry and COM disagree.
    InconsistentState(String),
}

/// The input processor profile of the TIP, as the system's profile
/// manager exposes it (implemented by the COM manager and by test mocks).
pub trait TipProfileManager {
    fn is_enabled(&self) -> Result<bool, TipManagerError>;

    fn enable(&self) -> Result<(), TipManagerError>;

    fn disable(&self) -> Result<(), TipManagerError>;

    fn register_profile(&self) -> Result<(), TipManagerError>;

    fn unregister_profile(&self) -> Result<(), TipManagerError>;
}

/// The status for what was found: without a registry entry the TIP is
/// not installed; otherwise the profile manager's answer decides, and a
/// failed query gives `Unknown`.
pub open spec fn status_for(registry_present: bool, enabled: Result<bool, TipManagerError>) -> TipStatus {
    if !registry_present {
        TipStatus::NotInstalled
    } else {
        match enabled {
            Ok(true) => TipStatus::InstalledEnabled,
            Ok(false) => TipStatus::InstalledDisabled,
            Err(_) => TipStatus::Unknown,
        }
    }
}

/// The status for what was found (see [`status_for`]).
pub fn status_from(registry_present: bool, enabled: Result<bool, TipManagerError>) -> (r: TipStatus)
    ensures
        r == status_for(registry_present, enabled),
{
    if !registry_present {
        return TipStatus::NotInstalled;
    }
    match enabled {
        Ok(true) => TipStatus::InstalledEnabled,
        Ok(false) => TipStatus::InstalledDisabled,
        Err(_) => TipStatus::Unknown,
    }
}

/// Detects the status: the profile manager is asked only when the
/// registry entry is present.
pub fn detect_status_impl<M: TipProfileManager>(registry_present: bool, profile_mgr: &M) -> (r: TipStatus)
    ensures
        !registry_present ==> r == TipStatus::NotInstalled,
        registry_present ==> r != TipStatus::NotInstalled,
{
    if !registry_present {
        return TipStatus::NotInstalled;
    }
    status_from(true, profile_mgr.is_enabled())
}

} // verus!
