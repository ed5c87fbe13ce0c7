//! Server settings: where it listens and where it keeps its data.
use vstd::prelude::*;

verus! {

/// The kind of store the server keeps its data in.
#[derive(Debug, Clone, PartialEq, Eq)]
pub enum DbType {
    /// One JSON file.
    File,
}

/// The server's settings.
#[derive(Debug, Clone, PartialEq, Eq)]
pub struct Args {
    /// Port of server
    pub port: u16,
    /// IP address of server
    pub ip: String,
    /// Database type of server
    pub db_type: DbType,
    /// Data path
    pub data_dir: String,
}

impl Default for Args {
    /// The settings when none are given: 127.0.0.1:3000, a file store, in
    /// the current directory.
    fn default() -> (r: Self)
        ensures
            r.port == 3000,
            r.ip@ == "127.0.0.1"@,
            r.db_type == DbType::File,
            r.data_dir@ == ""@,
    {
        Args {
            port: 3000,
            ip: "127.0.0.1".to_string(),
            db_type: DbType::File,
            data_dir: "".to_string(),
        }
    }
}

/// A store that can write its contents to where they persist.
pub trait DataBase {
    /// Writes the contents out; the error says why that failed.
    fn commit(&self) -> Result<(), String>;
}

/// A store of groups.
pub trait GroupDB: DataBase + Send + Sync {
}

} // verus!
