//! The recoverable errors of the task list.

use vstd::prelude::*;

verus! {

/// What can go wrong at the boundary of the task list.
#[derive(Debug, PartialEq, Eq, Structural)]
pub enum ToruError {
    /// Reading or writing failed.
    IoError,
    /// The program was started with an argument it does not know.
    InstantiateError,
    /// The cursor has no pending child at the requested position.
    InvalidIndex(usize),
    /// The text is not a command.
    ParseCommandFailure,
}

impl ToruError {
    /// The error in words.
    pub open spec fn text(self) -> Seq<char> {
        match self {
            ToruError::IoError => "Error in IO operations"@,
            ToruError::InstantiateError => "Error creating an instance of toru"@,
            ToruError::InvalidIndex(idx) => "Child at index "@ + crate::text::decimal(idx as nat)
                + " does not exist"@,
            ToruError::ParseCommandFailure => "Failed to parse command"@,
        }
    }

    /// The error in words.
    pub fn to_string(&self) -> (r: String)
        ensures
            r@ == self.text(),
    {
        match self {
            ToruError::IoError => "Error in IO operations".to_owned(),
            ToruError::InstantiateError => "Error creating an instance of toru".to_owned(),
            ToruError::InvalidIndex(idx) => {
                let mut text = "Child at index ".to_owned();
                let number = crate::text::decimal_string(*idx);
                text.append(number.as_str());
                text.append(" does not exist");
                text
            },
            ToruError::ParseCommandFailure => "Failed to parse command".to_owned(),
        }
    }
}

} // verus!
