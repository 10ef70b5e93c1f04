//! The error that loading the site reports: a human-readable message.

use vstd::prelude::*;

verus! {

/// Why the site could not be loaded.
#[derive(Debug)]
pub struct SiteError {
    message: String,
}

impl View for SiteError {
    type V = Seq<char>;

    /// The error's message.
    closed spec fn view(&self) -> Seq<char> {
        self.message@
    }
}

impl SiteError {
    /// An error with the given message.
    pub fn new(message: String) -> (e: Self)
        ensures
            e@ == message@,
    {
        SiteError { message }
    }

    /// An error whose message is `prefix` followed by `message`.
    pub fn with_prefix(prefix: &str, message: &str) -> (e: Self)
        ensures
            e@ == prefix@ + message@,
    {
        let mut text = prefix.to_owned();
        text.append(message);
        SiteError { message: text }
    }

    /// The message, as `Display` shows it.
    pub fn to_string(&self) -> (s: String)
        ensures
            s@ == self@,
    {
        self.message.clone()
    }

    /// The message.
    pub fn message(&self) -> (s: &str)
        ensures
            s@ == self@,
    {
        self.message.as_str()
    }
}

} // verus!
