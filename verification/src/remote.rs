//! A remote: an opaque fetch endpoint URL. The core does not interpret
//! the URL; equality and meaning are the URL's own.

use vstd::prelude::*;

verus! {

/// A remote copy of the repository, named by its URL.
#[derive(Debug)]
pub struct Remote(String);

impl View for Remote {
    type V = Seq<char>;

    closed spec fn view(&self) -> Seq<char> {
        self.0@
    }
}

impl Clone for Remote {
    /// A copy naming the same URL.
    fn clone(&self) -> (r: Self)
        ensures
            r@ == self@,
    {
        Remote(self.0.clone())
    }
}

impl Remote {
    /// A remote at the given URL.
    pub fn new(url: &str) -> (r: Self)
        ensures
            r@ == url@,
    {
        Self(url.to_owned())
    }

    /// The remote's URL.
    pub fn get(&self) -> (r: String)
        ensures
            r@ == self@,
    {
        self.0.clone()
    }
}

} // verus!
