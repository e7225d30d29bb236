//! Configuration values around the fetcher: filesystem paths carried as
//! plain strings, and the feed-modification commands.

use vstd::prelude::*;

verus! {

/// The filesystem path of the feed store's database file.
pub struct DatabasePath(pub String);

impl View for DatabasePath {
    type V = Seq<char>;

    open spec fn view(&self) -> Seq<char> {
        self.0@
    }
}

impl DatabasePath {
    /// The path as a string slice.
    pub fn as_str(&self) -> (r: &str)
        ensures
            r@ == self@,
    {
        self.0.as_str()
    }
}

/// The filesystem path of the runtime directory that holds the
/// single-instance lock.
pub struct RuntimeDirPath(pub String);

impl View for RuntimeDirPath {
    type V = Seq<char>;

    open spec fn view(&self) -> Seq<char> {
        self.0@
    }
}

impl RuntimeDirPath {
    /// The path as a string slice.
    pub fn as_str(&self) -> (r: &str)
        ensures
            r@ == self@,
    {
        self.0.as_str()
    }
}

/// A modification of one feed's settings.
pub enum Modification {
    /// Set the feed's link.
    Link { link: String },
    /// Set the number of most-recent episodes to fetch.
    Backlog { n: u32 },
}

} // verus!
