//! The tool's own settings: the sync token and the endpoint of the store.
use vstd::prelude::*;

use crate::error::{err_msg, string_result_view, ErrorKind, ErrorView, OctError};
use crate::pathname::{join, join_str, platform_separator};

verus! {

/// The tool's settings.
#[derive(Debug)]
pub struct OctConfig {
    pub token: String,
    pub endpoint: String,
}

impl OctConfig {
    pub fn new(token: String, endpoint: String) -> (r: Self)
        ensures
            r.token == token,
            r.endpoint == endpoint,
    {
        Self { token, endpoint }
    }
}

/// `dirs::config_dir()`: the user's configuration directory, when the
/// platform has one, as text (a name that is not valid UTF-8 in its lossy
/// form).  Nothing is stated of it: it depends on the environment.
#[verifier::external_body]
fn user_config_dir() -> Option<String> {
    dirs::config_dir().map(|p| p.to_string_lossy().into_owned())
}

/// The directory of the tool's settings, `oct` under the user's
/// configuration directory `config_dir`, joined with separator `sep`.
pub open spec fn data_dir_of(config_dir: Option<Seq<char>>, sep: char) -> Result<Seq<char>, ErrorView> {
    match config_dir {
        Some(c) => Ok(join(c, "oct"@, sep)),
        None => Err(err_msg(ErrorKind::Config, "cannot determine config directory"@)),
    }
}

/// The directory of the backups, `backups` under the settings directory.
pub open spec fn backups_dir_of(config_dir: Option<Seq<char>>, sep: char) -> Result<Seq<char>, ErrorView> {
    match data_dir_of(config_dir, sep) {
        Ok(d) => Ok(join(d, "backups"@, sep)),
        Err(e) => Err(e),
    }
}

pub open spec fn opt_str_view(o: Option<&str>) -> Option<Seq<char>> {
    match o {
        Some(s) => Some(s@),
        None => None,
    }
}

/// The directory of the tool's settings under `config_dir`.
pub fn oct_data_dir_in(config_dir: Option<&str>, sep: char) -> (r: Result<String, OctError>)
    ensures
        string_result_view(r) == data_dir_of(opt_str_view(config_dir), sep),
{
    match config_dir {
        Some(c) => Ok(join_str(c, "oct", sep)),
        None => Err(OctError::Config(String::from_str("cannot determine config directory"))),
    }
}

/// The directory of the tool's settings, under the user's configuration
/// directory of this machine.
pub fn oct_data_dir() -> (r: Result<String, OctError>)
    ensures
        exists|c: Option<Seq<char>>, sep: char| (sep == '/' || sep == '\\') && string_result_view(r) == data_dir_of(c, sep),
{
    let c = user_config_dir();
    let sep = platform_separator();
    match c {
        Some(d) => oct_data_dir_in(Some(d.as_str()), sep),
        None => oct_data_dir_in(None, sep),
    }
}

/// The directory of the backups, `backups` under the settings directory
/// under `config_dir`.
pub fn oct_backups_dir_in(config_dir: Option<&str>, sep: char) -> (r: Result<String, OctError>)
    ensures
        string_result_view(r) == backups_dir_of(opt_str_view(config_dir), sep),
{
    let d = oct_data_dir_in(config_dir, sep);
    match d {
        Ok(dir) => Ok(join_str(dir.as_str(), "backups", sep)),
        Err(e) => Err(e),
    }
}

/// The directory of the backups, under the settings directory of this
/// machine.
pub fn oct_backups_dir() -> (r: Result<String, OctError>)
    ensures
        exists|c: Option<Seq<char>>, sep: char| (sep == '/' || sep == '\\') && string_result_view(r) == backups_dir_of(c, sep),
{
    let c = user_config_dir();
    let sep = platform_separator();
    match c {
        Some(d) => oct_backups_dir_in(Some(d.as_str()), sep),
        None => oct_backups_dir_in(None, sep),
    }
}

} // verus!
