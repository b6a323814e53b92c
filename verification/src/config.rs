//! Startup configuration: listen address and the optional snapshot location.
//!
//! Immutable after startup.  The snapshot path is defined only when both the
//! directory and the filename are set.
use vstd::prelude::*;
use vstd::string::StringExecFns;

verus! {

/// The configuration values a server is started with.
#[derive(Debug, Clone)]
pub struct Config {
    addr: String,
    rdb_dir: Option<String>,
    rdb_file: Option<String>,
}

/// The mathematical model of a [`Config`].
pub struct ConfigModel {
    pub addr: Seq<char>,
    pub rdb_dir: Option<Seq<char>>,
    pub rdb_file: Option<Seq<char>>,
}

impl Config {
    pub closed spec fn view(&self) -> ConfigModel {
        ConfigModel {
            addr: self.addr@,
            rdb_dir: match self.rdb_dir {
                Some(ref d) => Some(d@),
                None => None,
            },
            rdb_file: match self.rdb_file {
                Some(ref f) => Some(f@),
                None => None,
            },
        }
    }

    pub fn new(addr: String, rdb_dir: Option<String>, rdb_file: Option<String>) -> (r: Self)
        ensures
            r@.addr == addr@,
            r@.rdb_dir == match rdb_dir {
                Some(d) => Some(d@),
                None => None::<Seq<char>>,
            },
            r@.rdb_file == match rdb_file {
                Some(f) => Some(f@),
                None => None::<Seq<char>>,
            },
    {
        Self { addr, rdb_dir, rdb_file }
    }

    pub fn get_addr_string(&self) -> (r: String)
        ensures
            r@ == self@.addr,
    {
        self.addr.clone()
    }

    pub fn get_rdb_file(&self) -> (r: Option<String>)
        ensures
            match r {
                Some(f) => self@.rdb_file == Some(f@),
                None => self@.rdb_file is None,
            },
    {
        match &self.rdb_file {
            Some(f) => Some(f.clone()),
            None => None,
        }
    }

    pub fn get_rdb_dir(&self) -> (r: Option<String>)
        ensures
            match r {
                Some(d) => self@.rdb_dir == Some(d@),
                None => self@.rdb_dir is None,
            },
    {
        match &self.rdb_dir {
            Some(d) => Some(d.clone()),
            None => None,
        }
    }

    /// `<dir>/<file>`, defined only when both parts are set.
    pub fn get_rdb_path(&self) -> (r: Option<String>)
        ensures
            match r {
                Some(p) => self@.rdb_dir is Some && self@.rdb_file is Some && p@
                    == self@.rdb_dir->0 + seq!['/'] + self@.rdb_file->0,
                None => self@.rdb_dir is None || self@.rdb_file is None,
            },
    {
        match &self.rdb_dir {
            Some(dir) => match &self.rdb_file {
                Some(fname) => {
                    let mut path = dir.clone();
                    path.append("/");
                    path.append(fname.as_str());
                    proof {
                        reveal_strlit("/");
                        assert("/"@ =~= seq!['/']);
                    }
                    Some(path)
                },
                None => None,
            },
            None => None,
        }
    }
}

} // verus!
