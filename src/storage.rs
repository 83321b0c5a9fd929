use vstd::prelude::*;

verus! {

/// Where the configuration file lives.
#[derive(Debug, Clone)]
pub struct TomlConfigStorage {
    path: String,
}

impl TomlConfigStorage {
    /// The configuration file path.
    pub closed spec fn spec_path(&self) -> Seq<char> {
        self.path@
    }

    /// A configuration store at `path`.
    pub fn new(path: String) -> (r: TomlConfigStorage)
        ensures
            r.spec_path() == path@,
    {
        TomlConfigStorage { path }
    }

    /// The configuration file path.
    pub fn path(&self) -> (r: &String)
        ensures
            r@ == self.spec_path(),
    {
        &self.path
    }
}

/// Where the history snapshot lives, and the cap for a fresh history.
#[derive(Debug, Clone)]
pub struct BincodeHistoryStorage {
    path: String,
    default_max_entries: usize,
}

impl BincodeHistoryStorage {
    /// The snapshot file path.
    pub closed spec fn spec_path(&self) -> Seq<char> {
        self.path@
    }

    /// The cap given to a fresh history.
    pub closed spec fn spec_default_max_entries(&self) -> usize {
        self.default_max_entries
    }

    /// A snapshot store at `path`; a history it creates has the given cap.
    pub fn new(path: String, default_max_entries: usize) -> (r: BincodeHistoryStorage)
        ensures
            r.spec_path() == path@,
            r.spec_default_max_entries() == default_max_entries,
    {
        BincodeHistoryStorage { path, default_max_entries }
    }

    /// The snapshot file path.
    pub fn path(&self) -> (r: &String)
        ensures
            r@ == self.spec_path(),
    {
        &self.path
    }

    /// The cap given to a fresh history.
    pub fn default_max_entries(&self) -> (r: usize)
        ensures
            r == self.spec_default_max_entries(),
    {
        self.default_max_entries
    }
}

} // verus!
