//! The persisted settings record and where it is kept.
use vstd::prelude::*;

verus! {

/// The persisted settings: the installation directory, once one was found.
#[derive(Debug, Clone)]
pub struct Config {
    pub svencoopdir: Option<String>,
}

impl Default for Config {
    /// Settings that hold no directory: what a missing settings file means.
    fn default() -> (r: Config)
        ensures
            r.svencoopdir is None,
    {
        Config { svencoopdir: None }
    }
}

impl Config {
    /// Settings that hold `dir`.
    pub fn with_dir(dir: String) -> (r: Config)
        ensures
            r.svencoopdir == Some(dir),
    {
        Config { svencoopdir: Some(dir) }
    }
}

/// The directory under which the settings are kept.
#[derive(Debug, Clone, PartialEq, Eq)]
pub enum SettingsRoot {
    /// The per-user local application-data directory.
    Local(String),
    /// The per-user roaming application-data directory.
    Roaming(String),
    /// Neither is known: the working directory.
    WorkingDir,
}

/// The settings root: the local application-data directory when it is
/// known, else the roaming one, else the working directory.
pub fn settings_root(local: Option<String>, roaming: Option<String>) -> (r: SettingsRoot)
    ensures
        local is Some ==> r == SettingsRoot::Local(local->Some_0),
        local is None && roaming is Some ==> r == SettingsRoot::Roaming(roaming->Some_0),
        local is None && roaming is None ==> r == SettingsRoot::WorkingDir,
{
    match local {
        Some(l) => SettingsRoot::Local(l),
        None => match roaming {
            Some(a) => SettingsRoot::Roaming(a),
            None => SettingsRoot::WorkingDir,
        },
    }
}

/// The settings file's name for the application `app`.
pub fn settings_file_name(app: &str) -> (r: String)
    ensures
        r@ == app@ + ".toml"@,
{
    let mut r = String::from_str(app);
    r.append(".toml");
    r
}

/// The name of the file that new settings are written to before they
/// replace the settings file.
pub fn settings_temp_name(app: &str) -> (r: String)
    ensures
        r@ == app@ + ".toml.tmp"@,
{
    let mut r = String::from_str(app);
    r.append(".toml.tmp");
    r
}

} // verus!
