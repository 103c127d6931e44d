use crate::config::{Config, ConfigModel, set_dbfilename, set_dir};
use vstd::prelude::*;

verus! {

/// The start-up settings, as given on the command line.
pub struct Cli {
    pub dir: String,
    pub dbfilename: String,
}

/// Stores the start-up settings in the configuration.
pub fn init(cli: &Cli, config: &mut Config)
    ensures
        final(config)@ == (ConfigModel { dir: Some(cli.dir@), dbfilename: Some(cli.dbfilename@) }),
{
    set_dir(config, cli.dir.as_str());
    set_dbfilename(config, cli.dbfilename.as_str());
}

} // verus!
