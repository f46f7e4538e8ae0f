//! The library's error type.

use vstd::prelude::*;
use crate::text::{decimal, decimal_string, push_str};

verus! {

/// An error of the graph library. Every variant carries the text that a user
/// sees; `message` renders it.
#[derive(Debug)]
pub enum GraphError {
    /// A plain message.
    Message(String),
    /// A required file does not exist.
    MissingFile(String),
    /// A line of an assertion file is not valid JSON.
    JsonLine { path: String, line: usize, message: String },
}

/// The result type of the library.
pub type Result<T> = core::result::Result<T, GraphError>;

impl Clone for GraphError {
    fn clone(&self) -> (out: Self)
        ensures
            out == *self,
    {
        match self {
            GraphError::Message(m) => GraphError::Message(m.clone()),
            GraphError::MissingFile(p) => GraphError::MissingFile(p.clone()),
            GraphError::JsonLine { path, line, message } => GraphError::JsonLine {
                path: path.clone(),
                line: *line,
                message: message.clone(),
            },
        }
    }
}

impl GraphError {
    /// An error holding a plain message.
    pub fn msg(value: String) -> (e: Self)
        ensures
            e == GraphError::Message(value),
    {
        GraphError::Message(value)
    }

    /// The text a user sees for this error.
    pub open spec fn text(self) -> Seq<char> {
        match self {
            GraphError::Message(m) => m@,
            GraphError::MissingFile(p) => "Missing file: "@ + p@,
            GraphError::JsonLine { path, line, message } => path@ + ":"@ + decimal(line as nat)
                + ": invalid JSON: "@ + message@,
        }
    }

    /// The text a user sees for this error.
    pub fn message(&self) -> (out: String)
        ensures
            out@ == self.text(),
    {
        match self {
            GraphError::Message(m) => m.clone(),
            GraphError::MissingFile(p) => {
                let mut out = String::new();
                push_str(&mut out, "Missing file: ");
                push_str(&mut out, p.as_str());
                out
            },
            GraphError::JsonLine { path, line, message } => {
                let mut out = String::new();
                push_str(&mut out, path.as_str());
                push_str(&mut out, ":");
                let n = decimal_string(*line);
                push_str(&mut out, n.as_str());
                push_str(&mut out, ": invalid JSON: ");
                push_str(&mut out, message.as_str());
                out
            },
        }
    }
}

} // verus!
