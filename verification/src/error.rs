//! The errors of the engine.
//!
//! Failures of the file system and of the record codec arise in the host,
//! which hands them on as their messages. The engine itself reports two
//! things: a stored record that breaks the node invariant, and a name for a
//! new node that is already taken.

use vstd::prelude::*;

verus! {

/// What can go wrong with one node.
#[derive(Debug)]
pub enum NodeError {
    /// The node's file could not be created, opened, read or written. The
    /// field holds what the file system reported.
    Io(String),
    /// The node's record could not be encoded. The field holds what the
    /// encoder reported.
    Serialization(String),
    /// The content of the node's file is not a node record. The field holds
    /// what was found wrong.
    Deserialization(String),
}

/// What an operation of the tree can fail with.
#[derive(Debug)]
pub enum Error {
    /// The file system failed. The field holds what it reported.
    Io(String),
    /// A record could not be encoded. The field holds what the encoder
    /// reported.
    Serialization(String),
    /// A node failed.
    Node(NodeError),
}

impl From<NodeError> for Error {
    fn from(e: NodeError) -> (r: Error) {
        Error::Node(e)
    }
}

impl vstd::std_specs::convert::FromSpecImpl<NodeError> for Error {
    open spec fn obeys_from_spec() -> bool {
        true
    }

    open spec fn from_spec(e: NodeError) -> Error {
        Error::Node(e)
    }
}

/// The text that names the kind of a node error.
pub open spec fn node_error_text(e: NodeError) -> Seq<char> {
    match e {
        NodeError::Io(_) => "An I/O error occurred."@,
        NodeError::Serialization(_) => "A serialization error occurred."@,
        NodeError::Deserialization(_) => "A deserialization error occurred."@,
    }
}

/// The text that names the kind of an error; for a node's failure it ends
/// with the text of the node error.
pub open spec fn error_text(e: Error) -> Seq<char> {
    match e {
        Error::Io(_) => "An I/O error occurred."@,
        Error::Serialization(_) => "A serialization error occurred."@,
        Error::Node(n) => "A node error occurred. "@ + node_error_text(n),
    }
}

impl NodeError {
    /// The message of the error.
    pub fn message(&self) -> (r: String)
        ensures
            r@ == node_error_text(*self),
    {
        match self {
            NodeError::Io(_) => String::from_str("An I/O error occurred."),
            NodeError::Serialization(_) => String::from_str("A serialization error occurred."),
            NodeError::Deserialization(_) => String::from_str("A deserialization error occurred."),
        }
    }

    /// The error for a stored record that breaks the node invariant.
    pub fn malformed() -> (r: NodeError)
        ensures
            r == NodeError::Deserialization(r->Deserialization_0),
            r->Deserialization_0@ == "the record breaks the node invariant"@,
    {
        NodeError::Deserialization(String::from_str("the record breaks the node invariant"))
    }

    /// The error for a new node whose name is already taken.
    pub fn taken() -> (r: NodeError)
        ensures
            r == NodeError::Io(r->Io_0),
            r->Io_0@ == "a node of this name exists"@,
    {
        NodeError::Io(String::from_str("a node of this name exists"))
    }
}

impl Error {
    /// The message of the error.
    pub fn message(&self) -> (r: String)
        ensures
            r@ == error_text(*self),
    {
        match self {
            Error::Io(_) => String::from_str("An I/O error occurred."),
            Error::Serialization(_) => String::from_str("A serialization error occurred."),
            Error::Node(e) => {
                let tail = e.message();
                String::from_str("A node error occurred. ").concat(tail.as_str())
            },
        }
    }
}

} // verus!
