//! Credentials for the remote catalog API: a username and a personal access
//! token. Loading, saving and interactive entry are I/O concerns handled by
//! the surrounding application; the library only holds the values and decides
//! whether they are usable.

use vstd::prelude::*;

verus! {

pub struct Config {
    pub username: String,
    pub token: String,
}

impl Config {
    /// An empty configuration: no username, no token.
    pub fn new() -> (r: Config)
        ensures
            r.username@ == Seq::<char>::empty(),
            r.token@ == Seq::<char>::empty(),
    {
        Config { username: String::new(), token: String::new() }
    }

    /// Credentials are usable exactly when both fields are non-empty.
    pub fn is_configured(&self) -> (r: bool)
        ensures
            r == (self.username@.len() > 0 && self.token@.len() > 0),
    {
        !self.username.as_str().is_empty() && !self.token.as_str().is_empty()
    }
}

} // verus!
