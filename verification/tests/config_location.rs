use mywubi::config_path::{choose_config_location, resolved_config, ConfigLocation};
use std::path::PathBuf;

#[test]
fn config_beside_executable_wins() {
    assert_eq!(choose_config_location(true, true), ConfigLocation::BesideExecutable);
    assert_eq!(choose_config_location(true, false), ConfigLocation::BesideExecutable);
    assert_eq!(choose_config_location(false, true), ConfigLocation::AppData);
    assert_eq!(choose_config_location(false, false), ConfigLocation::BesideExecutableFallback);
}

#[test]
fn resolved_config_paths_and_notice() {
    let p = PathBuf::from("exe/config.toml");
    let a = PathBuf::from("app/config.toml");
    let r = resolved_config(ConfigLocation::BesideExecutable, p.clone(), a.clone());
    assert_eq!(r.path, p);
    assert!(r.portable);
    assert!(r.fallback_message.is_none());
    let r = resolved_config(ConfigLocation::BesideExecutableFallback, p.clone(), a.clone());
    assert_eq!(r.path, p);
    assert!(r.portable);
    assert_eq!(r.fallback_message.as_deref(), Some("[!] 已切换便携模式（AppData 不可用）"));
    let r = resolved_config(ConfigLocation::AppData, p, a.clone());
    assert_eq!(r.path, a);
    assert!(!r.portable);
    assert!(r.fallback_message.is_none());
}
