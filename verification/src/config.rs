//! The author configuration: a snapshot of the configured author
//! string, read once per process from the user's configuration file
//! and immutable afterwards.  Reading the file is the caller's
//! business; this type only carries the value.

use vstd::prelude::*;

verus! {

/// The process-wide configuration: the author string.
#[derive(Debug)]
pub struct Config {
    author: String,
}

impl View for Config {
    type V = Seq<char>;

    closed spec fn view(&self) -> Seq<char> {
        self.author@
    }
}

impl Config {
    /// Wrap the author string read from the configuration file.
    pub fn new(author: String) -> (c: Config)
        ensures
            c@ == author@,
    {
        Config { author }
    }

    /// The configured author.
    pub fn author(&self) -> (r: &str)
        ensures
            r@ == self@,
    {
        self.author.as_str()
    }
}

} // verus!
