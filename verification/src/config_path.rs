//! Where the configuration file is: the result of locating it and the
//! ways locating it can fail.  The file-system work is done by the
//! program around this library.
use vstd::prelude::*;

verus! {

/// The configuration file that was found or created.
#[derive(Debug, Clone)]
pub struct ResolvedConfigPath {
    pub path: std::path::PathBuf,
    /// The file lies beside the executable (portable mode).
    pub portable: bool,
    /// A notice for the user when portable mode was chosen as a fallback.
    pub fallback_message: Option<String>,
}

/// Ways locating the configuration file can fail.
#[derive(Debug)]
pub enum PathError {
    /// The executable's path is unknown.
    ExePath(String),
    /// The per-user application data directory is unknown.
    AppData,
    /// A directory could not be created (path, reason).
    CreateDir(std::path::PathBuf, String),
    /// The default configuration could not be written (path, reason).
    WriteConfig(std::path::PathBuf, String),
}

/// Where the configuration file is kept.
#[derive(Debug, Clone, Copy, PartialEq, Eq, Structural)]
pub enum ConfigLocation {
    /// Beside the executable, where a configuration already is (portable
    /// mode).
    BesideExecutable,
    /// Beside the executable because the application data directory could
    /// not be made.
    BesideExecutableFallback,
    /// In the per-user application data directory.
    AppData,
}

/// The choice of location: a configuration beside the executable wins;
/// else the application data directory when it could be made; else beside
/// the executable as a fallback.  (When a configuration lies beside the
/// executable, `app_dir_ready` is not looked at.)
pub fn choose_config_location(portable_file_exists: bool, app_dir_ready: bool) -> (r: ConfigLocation)
    ensures
        portable_file_exists ==> r == ConfigLocation::BesideExecutable,
        !portable_file_exists && app_dir_ready ==> r == ConfigLocation::AppData,
        !portable_file_exists && !app_dir_ready ==> r == ConfigLocation::BesideExecutableFallback,
{
    if portable_file_exists {
        ConfigLocation::BesideExecutable
    } else if app_dir_ready {
        ConfigLocation::AppData
    } else {
        ConfigLocation::BesideExecutableFallback
    }
}

/// The located configuration for a chosen location: the file beside the
/// executable or in the application data directory, whether that is
/// portable mode, and the notice shown when portable mode is a fallback.
pub fn resolved_config(
    location: ConfigLocation,
    portable_path: std::path::PathBuf,
    app_config_path: std::path::PathBuf,
) -> (r: ResolvedConfigPath)
    ensures
        r.path == (if location == ConfigLocation::AppData {
            app_config_path
        } else {
            portable_path
        }),
        r.portable == (location != ConfigLocation::AppData),
        location == ConfigLocation::BesideExecutableFallback ==> (r.fallback_message matches Some(m) && m@
            == "[!] 已切换便携模式（AppData 不可用）"@),
        location != ConfigLocation::BesideExecutableFallback ==> r.fallback_message is None,
{
    match location {
        ConfigLocation::BesideExecutable => ResolvedConfigPath {
            path: portable_path,
            portable: true,
            fallback_message: None,
        },
        ConfigLocation::BesideExecutableFallback => ResolvedConfigPath {
            path: portable_path,
            portable: true,
            fallback_message: Some("[!] 已切换便携模式（AppData 不可用）".to_owned()),
        },
        ConfigLocation::AppData => ResolvedConfigPath {
            path: app_config_path,
            portable: false,
            fallback_message: None,
        },
    }
}

} // verus!
