//! The error value every fallible operation returns: a human-readable
//! message, optionally wrapping the error that caused it.

use vstd::prelude::*;

verus! {

/// The messages the library reports, one spec function per failure kind.
pub open spec fn invalid_format_msg() -> Seq<char> {
    "Invalid format for new Todo item."@
}

pub open spec fn corrupt_store_msg() -> Seq<char> {
    "Error reading persistence file. Data is likely corrupted."@
}

pub open spec fn not_found_msg() -> Seq<char> {
    "Please select a valid ID."@
}

pub open spec fn not_a_char_msg() -> Seq<char> {
    "Input must be a single character."@
}

pub open spec fn no_such_action_msg() -> Seq<char> {
    "A valid menu action must be selected."@
}

/// A descriptive error, optionally chaining the lower-level error it wraps.
#[derive(Debug)]
pub struct TodoError {
    pub message: String,
    pub source: Option<Box<TodoError>>,
}

impl TodoError {
    /// The error this one wraps, if any.
    pub open spec fn spec_root(&self) -> Option<Box<TodoError>> {
        self.source
    }

    /// An error wrapping a lower-level cause.
    pub fn new(message: String, source: Box<TodoError>) -> (e: TodoError)
        ensures
            e.message == message,
            e.spec_root() == Some(source),
    {
        TodoError { message, source: Some(source) }
    }

    /// An error with a message alone.
    pub fn new_from_msg(message: String) -> (e: TodoError)
        ensures
            e.message == message,
            e.spec_root() is None,
    {
        TodoError { message, source: None }
    }

    /// The wrapped cause, for diagnostic display.
    pub fn root(&self) -> (r: &Option<Box<TodoError>>)
        ensures
            *r == self.spec_root(),
    {
        &self.source
    }
}

/// A fresh error carrying `invalid_format_msg()`.
pub fn validation_error() -> (e: TodoError)
    ensures
        e.message@ == invalid_format_msg(),
        e.spec_root() is None,
{
    TodoError::new_from_msg(String::from_str("Invalid format for new Todo item."))
}

/// A fresh error carrying `corrupt_store_msg()`.
pub fn corrupt_store_error() -> (e: TodoError)
    ensures
        e.message@ == corrupt_store_msg(),
        e.spec_root() is None,
{
    TodoError::new_from_msg(String::from_str(
        "Error reading persistence file. Data is likely corrupted.",
    ))
}

/// A fresh error carrying `not_found_msg()`.
pub fn not_found_error() -> (e: TodoError)
    ensures
        e.message@ == not_found_msg(),
        e.spec_root() is None,
{
    TodoError::new_from_msg(String::from_str("Please select a valid ID."))
}

} // verus!
