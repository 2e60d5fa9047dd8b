//! Where the configuration lies, and whether it may be written there.

use vstd::prelude::*;

verus! {

/// Where the configuration lies.
#[derive(Debug)]
pub enum ConfigLocation<P> {
    /// At a path.
    At(P),
    /// In its place under the home directory.
    UnderHome(P),
}

/// Nothing tells where the configuration lies.
#[derive(Debug)]
pub struct NoLocation;

impl NoLocation {
    /// The sentence that reports the error.
    pub fn message(&self) -> (r: String)
        ensures
            r@ == "HOME is not set; use KONNECT_CONFIG to set a config path"@,
    {
        "HOME is not set; use KONNECT_CONFIG to set a config path".to_owned()
    }
}

/// Where the configuration lies: at the path that the command line names, or else the variable,
/// or else in its place under the home directory, or else under the user's profile.
pub open spec fn located<P>(
    argument: Option<P>,
    variable: Option<P>,
    home: Option<P>,
    profile: Option<P>,
) -> Result<ConfigLocation<P>, NoLocation> {
    match (argument, variable, home, profile) {
        (Some(path), _, _, _) => Ok(ConfigLocation::At(path)),
        (None, Some(path), _, _) => Ok(ConfigLocation::At(path)),
        (None, None, Some(home), _) => Ok(ConfigLocation::UnderHome(home)),
        (None, None, None, Some(home)) => Ok(ConfigLocation::UnderHome(home)),
        (None, None, None, None) => Err(NoLocation),
    }
}

/// The path of the configuration: the one that the command line names, or else the variable,
/// or else the place under the home directory, or else under the user's profile.
pub fn config_path<P>(
    argument: Option<P>,
    variable: Option<P>,
    home: Option<P>,
    profile: Option<P>,
) -> (r: Result<ConfigLocation<P>, NoLocation>)
    ensures
        r == located(argument, variable, home, profile),
{
    if let Some(path) = argument {
        return Ok(ConfigLocation::At(path));
    }
    if let Some(path) = variable {
        return Ok(ConfigLocation::At(path));
    }
    if let Some(home) = home {
        return Ok(ConfigLocation::UnderHome(home));
    }
    match profile {
        Some(home) => Ok(ConfigLocation::UnderHome(home)),
        None => Err(NoLocation),
    }
}

/// The steps from the home directory to the configuration.
pub fn home_steps() -> (r: (&'static str, &'static str))
    ensures
        r.0@ == ".konnect"@,
        r.1@ == "config.json"@,
{
    (".konnect", "config.json")
}

/// Whether a configuration may be written: none is there, or it may be replaced.
pub fn may_write(present: bool, force: bool) -> (b: bool)
    ensures
        b == (!present || force),
{
    !present || force
}

} // verus!
