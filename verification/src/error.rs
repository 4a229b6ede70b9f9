//! Errors, and the place in a script that an error is reported at.
use vstd::prelude::*;

verus! {

/// A place in a script.
#[derive(Debug)]
pub struct ScriptLocation {
    /// The script's name.
    pub input_name: String,
    /// The line in the script.
    pub line_number: usize,
}

/// A place in a script, as a value of specifications.
pub struct LocationView {
    pub input_name: Seq<char>,
    pub line_number: nat,
}

impl View for ScriptLocation {
    type V = LocationView;

    open spec fn view(&self) -> LocationView {
        LocationView { input_name: self.input_name@, line_number: self.line_number as nat }
    }
}

impl Clone for ScriptLocation {
    fn clone(&self) -> (r: Self)
        ensures
            r == *self,
    {
        ScriptLocation { input_name: self.input_name.clone(), line_number: self.line_number }
    }
}

impl Default for ScriptLocation {
    /// No script: an unnamed one, at line zero.
    fn default() -> (r: Self)
        ensures
            r@ == (LocationView { input_name: Seq::empty(), line_number: 0 }),
    {
        ScriptLocation { input_name: String::new(), line_number: 0 }
    }
}

/// What can go wrong with a chunk or a regular expression.
#[derive(Debug)]
pub enum SedError {
    /// The program should exit with the code.
    Simple { code: i32, message: String },
    /// A regular expression failed while the script ran.
    Runtime { location: ScriptLocation, message: String },
    /// The text is no regular expression.
    Pattern { message: String },
}

/// An error, as a value of specifications.
pub enum ErrorView {
    Simple { code: i32, message: Seq<char> },
    Runtime { location: LocationView, message: Seq<char> },
    Pattern { message: Seq<char> },
}

impl View for SedError {
    type V = ErrorView;

    open spec fn view(&self) -> ErrorView {
        match *self {
            SedError::Simple { code, message } => ErrorView::Simple { code, message: message@ },
            SedError::Runtime { location, message } => ErrorView::Runtime {
                location: location@,
                message: message@,
            },
            SedError::Pattern { message } => ErrorView::Pattern { message: message@ },
        }
    }
}

impl ErrorView {
    /// What the error says.
    pub open spec fn text(self) -> Seq<char> {
        match self {
            ErrorView::Simple { message, .. } => message,
            ErrorView::Runtime { message, .. } => message,
            ErrorView::Pattern { message } => message,
        }
    }
}

impl SedError {
    /// What the error says, without the place of a runtime error.
    pub fn message(&self) -> (r: String)
        ensures
            r@ == self@.text(),
    {
        match self {
            SedError::Simple { message, .. } => message.clone(),
            SedError::Runtime { message, .. } => message.clone(),
            SedError::Pattern { message } => message.clone(),
        }
    }
}

} // verus!
