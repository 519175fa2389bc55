//! The error type of the library: a message, and whether usage help should
//! follow it.

use vstd::prelude::*;

use crate::paths::{format_path, path_key};
use crate::text::push_str;

verus! {

/// An error with the message shown to the user.
#[derive(Debug, Clone, PartialEq, Eq)]
pub struct CodeM8Error {
    message: String,
    show_help: bool,
}

impl CodeM8Error {
    /// The message of the error.
    pub closed spec fn message_view(&self) -> Seq<char> {
        self.message@
    }

    /// Whether usage help should be shown with the error.
    pub closed spec fn shows_help(&self) -> bool {
        self.show_help
    }

    /// An error with `message`.
    pub fn new(message: String) -> (e: Self)
        ensures
            e.message_view() == message@,
            !e.shows_help(),
    {
        CodeM8Error { message, show_help: false }
    }

    /// An error with `message` after which usage help is shown.
    pub fn with_help(message: String) -> (e: Self)
        ensures
            e.message_view() == message@,
            e.shows_help(),
    {
        CodeM8Error { message, show_help: true }
    }

    /// An error of an input/output operation: `could not <action> <path>:
    /// <error>`, with the path shown with forward slashes.
    pub fn io(path: &str, action: &str, error: &str) -> (e: Self)
        ensures
            e.message_view() == "could not "@ + action@ + " "@ + path_key(path@) + ": "@ + error@,
            !e.shows_help(),
    {
        let mut message = String::new();
        push_str(&mut message, "could not ");
        push_str(&mut message, action);
        push_str(&mut message, " ");
        let shown = format_path(path);
        push_str(&mut message, shown.as_str());
        push_str(&mut message, ": ");
        push_str(&mut message, error);
        CodeM8Error { message, show_help: false }
    }

    /// Whether usage help should be shown with the error.
    pub fn should_show_help(&self) -> (b: bool)
        ensures
            b == self.shows_help(),
    {
        self.show_help
    }

    /// The message of the error.
    pub fn message(&self) -> (m: &str)
        ensures
            m@ == self.message_view(),
    {
        self.message.as_str()
    }

    /// The message of the error, as an owned string.
    pub fn to_string(&self) -> (m: String)
        ensures
            m@ == self.message_view(),
    {
        self.message.clone()
    }
}

} // verus!
