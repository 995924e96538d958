use vstd::prelude::*;
use vstd::string::*;

verus! {

/// Why a migration run stopped. `E` is the error type of the store in use.
#[derive(Debug, PartialEq, Eq)]
pub enum Error<E> {
    /// A script file holds no statement; the message names the file.
    ParseMigrationFile(String),
    /// The store refused a request.
    Store(E),
    /// A script file could not be read; the message is the one the
    /// operating system gave.
    Io(String),
}

/// The message of the error for a script file at `path` without statements.
pub open spec fn no_cql_message(path: Seq<char>) -> Seq<char> {
    "no CQL found in "@ + path
}

impl<E> Error<E> {
    /// The text of a failure that the engine itself describes: the message of
    /// a parse or a read failure. A store failure is described by the store's
    /// own error.
    pub open spec fn spec_message(&self) -> Option<Seq<char>> {
        match self {
            Error::ParseMigrationFile(m) => Some(m@),
            Error::Store(_) => None,
            Error::Io(m) => Some(m@),
        }
    }

    /// The text of a failure that the engine itself describes.
    pub fn message(&self) -> (m: Option<String>)
        ensures
            m is Some == self.spec_message() is Some,
            m is Some ==> m->Some_0@ == self.spec_message()->Some_0,
    {
        match self {
            Error::ParseMigrationFile(m) => Some(m.clone()),
            Error::Store(_) => None,
            Error::Io(m) => Some(m.clone()),
        }
    }

    /// The error for a script file at `path` in which no statement was found.
    pub fn no_cql(path: &str) -> (e: Self)
        ensures
            e matches Error::ParseMigrationFile(m) && m@ == no_cql_message(path@),
    {
        let mut m = String::from_str("no CQL found in ");
        m.append(path);
        Error::ParseMigrationFile(m)
    }
}

} // verus!
