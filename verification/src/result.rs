//! The error type shared by every operation of the library.

use vstd::prelude::*;

verus! {

/// One error kind per failure class: filesystem, process/registry/extraction,
/// configuration, server, and missing entries.
#[derive(Debug)]
pub enum OpenCliError {
    Io(String),
    Process(String),
    Config(String),
    Server(String),
    NotFound(String),
}

impl OpenCliError {
    pub fn process(msg: String) -> (r: Self)
        ensures
            r matches OpenCliError::Process(m) && m@ == msg@,
    {
        OpenCliError::Process(msg)
    }

    pub fn config(msg: String) -> (r: Self)
        ensures
            r matches OpenCliError::Config(m) && m@ == msg@,
    {
        OpenCliError::Config(msg)
    }

    pub fn server(msg: String) -> (r: Self)
        ensures
            r matches OpenCliError::Server(m) && m@ == msg@,
    {
        OpenCliError::Server(msg)
    }

    pub fn not_found(msg: String) -> (r: Self)
        ensures
            r matches OpenCliError::NotFound(m) && m@ == msg@,
    {
        OpenCliError::NotFound(msg)
    }

    /// The message carried by the error, whatever its kind.
    pub fn message(&self) -> (r: &String)
        ensures
            r@ == self.spec_message(),
    {
        match self {
            OpenCliError::Io(m) => m,
            OpenCliError::Process(m) => m,
            OpenCliError::Config(m) => m,
            OpenCliError::Server(m) => m,
            OpenCliError::NotFound(m) => m,
        }
    }

    pub open spec fn spec_message(&self) -> Seq<char> {
        match self {
            OpenCliError::Io(m) => m@,
            OpenCliError::Process(m) => m@,
            OpenCliError::Config(m) => m@,
            OpenCliError::Server(m) => m@,
            OpenCliError::NotFound(m) => m@,
        }
    }
}

} // verus!
