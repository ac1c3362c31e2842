use mywubi::tip::{detect_status_impl, status_from, TipManagerError, TipProfileManager, TipStatus};
use std::cell::Cell;

struct MockProfileManager {
    enabled: Cell<bool>,
    registered: Cell<bool>,
    fail_next: Cell<bool>,
}

impl MockProfileManager {
    fn new(enabled: bool, registered: bool) -> Self {
        Self { enabled: Cell::new(enabled), registered: Cell::new(registered), fail_next: Cell::new(false) }
    }
}

impl TipProfileManager for MockProfileManager {
    fn is_enabled(&self) -> Result<bool, TipManagerError> {
        if self.fail_next.get() {
            return Err(TipManagerError::Com("mock failure".into()));
        }
        Ok(self.enabled.get())
    }

    fn enable(&self) -> Result<(), TipManagerError> {
        if self.fail_next.get() {
            return Err(TipManagerError::Com("mock failure".into()));
        }
        self.enabled.set(true);
        Ok(())
    }

    fn disable(&self) -> Result<(), TipManagerError> {
        if self.fail_next.get() {
            return Err(TipManagerError::Com("mock failure".into()));
        }
        self.enabled.set(false);
        Ok(())
    }

    fn register_profile(&self) -> Result<(), TipManagerError> {
        if self.fail_next.get() {
            return Err(TipManagerError::Com("mock failure".into()));
        }
        self.registered.set(true);
        self.enabled.set(true);
        Ok(())
    }

    fn unregister_profile(&self) -> Result<(), TipManagerError> {
        if self.fail_next.get() {
            return Err(TipManagerError::Com("mock failure".into()));
        }
        self.registered.set(false);
        Ok(())
    }
}

#[test]
fn test_mock_enable_disable() {
    let m = MockProfileManager::new(false, true);
    assert!(!m.is_enabled().unwrap());
    m.enable().unwrap();
    assert!(m.is_enabled().unwrap());
    m.disable().unwrap();
    assert!(!m.is_enabled().unwrap());
}

#[test]
fn test_mock_register_unregister() {
    let m = MockProfileManager::new(false, false);
    m.register_profile().unwrap();
    assert!(m.registered.get());
    assert!(m.enabled.get());
    m.unregister_profile().unwrap();
    assert!(!m.registered.get());
}

#[test]
fn test_mock_failure() {
    let m = MockProfileManager::new(false, true);
    m.fail_next.set(true);
    assert!(m.is_enabled().is_err());
    m.fail_next.set(false);
    assert!(m.is_enabled().is_ok());
}

#[test]
fn test_detect_enabled_via_mock() {
    let mock = MockProfileManager::new(true, true);
    let _ = detect_status_impl(true, &mock);
}

#[test]
fn test_detect_disabled_via_mock() {
    let mock = MockProfileManager::new(false, true);
    let _ = detect_status_impl(true, &mock);
}

#[test]
fn test_detect_com_failure_via_mock() {
    let mock = MockProfileManager::new(false, true);
    mock.fail_next.set(true);
    let _ = detect_status_impl(true, &mock);
}

#[test]
fn detection_follows_registry_and_profile() {
    assert_eq!(detect_status_impl(false, &MockProfileManager::new(true, true)), TipStatus::NotInstalled);
    assert_eq!(detect_status_impl(true, &MockProfileManager::new(true, true)), TipStatus::InstalledEnabled);
    assert_eq!(detect_status_impl(true, &MockProfileManager::new(false, true)), TipStatus::InstalledDisabled);
    let failing = MockProfileManager::new(true, true);
    failing.fail_next.set(true);
    assert_eq!(detect_status_impl(true, &failing), TipStatus::Unknown);
    assert!(failing.registered.get());
}

#[test]
fn status_from_each_answer() {
    assert_eq!(status_from(false, Ok(true)), TipStatus::NotInstalled);
    assert_eq!(status_from(true, Ok(true)), TipStatus::InstalledEnabled);
    assert_eq!(status_from(true, Ok(false)), TipStatus::InstalledDisabled);
    assert_eq!(status_from(true, Err(TipManagerError::AccessDenied)), TipStatus::Unknown);
}
