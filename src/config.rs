use vstd::prelude::*;

verus! {

/// The two settings, each set or not yet set.
pub struct ConfigModel {
    pub dir: Option<Seq<char>>,
    pub dbfilename: Option<Seq<char>>,
}

/// The process-wide settings, read by `CONFIG GET`.
pub struct Config {
    dir: Option<String>,
    dbfilename: Option<String>,
}

impl View for Config {
    type V = ConfigModel;

    closed spec fn view(&self) -> ConfigModel {
        ConfigModel {
            dir: match self.dir {
                Some(d) => Some(d@),
                None => None,
            },
            dbfilename: match self.dbfilename {
                Some(f) => Some(f@),
                None => None,
            },
        }
    }
}

/// The setting that a parameter name stands for: `dir` or `dbfilename`.
pub open spec fn lookup_spec(c: ConfigModel, name: Seq<char>) -> Option<Seq<char>> {
    if name == "dir"@ {
        c.dir
    } else if name == "dbfilename"@ {
        c.dbfilename
    } else {
        None
    }
}

/// Settings with neither value set.
pub fn init() -> (r: Config)
    ensures
        r@.dir is None,
        r@.dbfilename is None,
{
    Config { dir: None, dbfilename: None }
}

pub fn set_dir(config: &mut Config, dir: &str)
    ensures
        final(config)@.dir == Some(dir@),
        final(config)@.dbfilename == old(config)@.dbfilename,
{
    config.dir = Some(dir.to_owned());
}

pub fn get_dir(config: &Config) -> (r: String)
    requires
        config@.dir is Some,
    ensures
        r@ == config@.dir->0,
{
    match &config.dir {
        Some(d) => d.clone(),
        None => String::new(),
    }
}

pub fn set_dbfilename(config: &mut Config, filename: &str)
    ensures
        final(config)@.dbfilename == Some(filename@),
        final(config)@.dir == old(config)@.dir,
{
    config.dbfilename = Some(filename.to_owned());
}

pub fn get_dbfilename(config: &Config) -> (r: String)
    requires
        config@.dbfilename is Some,
    ensures
        r@ == config@.dbfilename->0,
{
    match &config.dbfilename {
        Some(f) => f.clone(),
        None => String::new(),
    }
}

/// The value of the setting that `name` names, if it is one and is set.
pub fn lookup(config: &Config, name: &str) -> (r: Option<String>)
    ensures
        match lookup_spec(config@, name@) {
            Some(v) => r matches Some(s) && s@ == v,
            None => r is None,
        },
{
    let n = name.to_owned();
    let dir_key = "dir".to_owned();
    let file_key = "dbfilename".to_owned();
    let found = if n == dir_key {
        &config.dir
    } else if n == file_key {
        &config.dbfilename
    } else {
        return None;
    };
    match found {
        Some(v) => Some(v.clone()),
        None => None,
    }
}

} // verus!
