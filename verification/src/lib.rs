use vstd::prelude::*;
use vstd::string::StringExecFns;

pub mod codec;
pub mod commands;
pub mod config;
pub mod date;
pub mod journal;
pub mod error;
pub mod rating;

verus! {

/// The configuration file's place inside the configuration directory.
pub fn get_config_file_path(config_dir: &str) -> (r: String)
    ensures
        r@ == config_dir@ + "/config.ron"@,
{
    config_dir.to_owned().concat("/config.ron")
}

/// The default directory for the journal file is the configuration
/// directory itself.
pub fn get_default_journal_dir(config_dir: &str) -> (r: String)
    ensures
        r@ == config_dir@,
{
    config_dir.to_owned()
}

} // verus!
