//! Input locations and location-annotated errors.
//!
//! A parser failure is wrapped with the 1-based line it arose on and, once
//! the path-opening caller sees it, with the source path, so that the whole
//! read fails with a single located message.

use vstd::prelude::*;

use crate::account::ChartError;
use crate::money::{amount_chars, digits_of, render_amount, zero_pad};

verus! {

/// A place in the input: an optional source path and a 1-based line number,
/// 0 standing for an unknown line.
#[derive(Debug, Clone, PartialEq, Eq)]
pub struct InputLoc {
    pub path: Option<String>,
    pub line_number: u32,
}

/// The decimal digits of a number.
pub open spec fn number_chars(n: int) -> Seq<char> {
    digits_of(n as nat)
}

/// The rendering of a location: ` at <path>, line <n>`, ` in <path>`,
/// ` at line <n>`, or nothing, as the parts are known.
pub open spec fn loc_chars(path: Option<Seq<char>>, line_number: u32) -> Seq<char> {
    match path {
        Some(p) => if line_number != 0 {
            " at "@ + p + ", line "@ + number_chars(line_number as int)
        } else {
            " in "@ + p
        },
        None => if line_number != 0 {
            " at line "@ + number_chars(line_number as int)
        } else {
            Seq::empty()
        },
    }
}

/// The view of an optional path.
pub open spec fn path_view(path: Option<String>) -> Option<Seq<char>> {
    match path {
        Some(p) => Some(p@),
        None => None,
    }
}

/// Renders a number in decimal.
pub fn render_number(n: u32) -> (r: String)
    ensures
        r@ == number_chars(n as int),
{
    let r = render_amount(n as i128, 0);
    proof {
        assert(zero_pad(digits_of(n as nat), 1) == digits_of(n as nat));
        assert(r@ =~= number_chars(n as int));
    }
    r
}

impl InputLoc {
    /// A location with a line number only.
    pub fn new(line_number: u32) -> (r: InputLoc)
        ensures
            r.path is None,
            r.line_number == line_number,
    {
        InputLoc { path: None, line_number }
    }

    /// The same location, with the source path filled in.
    pub fn with_path(&self, path: &str) -> (r: InputLoc)
        ensures
            r.path matches Some(p) && p@ == path@,
            r.line_number == self.line_number,
    {
        InputLoc { path: Some(String::from_str(path)), line_number: self.line_number }
    }

    /// Renders the location, as [`loc_chars`] describes.
    pub fn render(&self) -> (r: String)
        ensures
            r@ == loc_chars(path_view(self.path), self.line_number),
    {
        match &self.path {
            Some(p) => {
                if self.line_number != 0 {
                    let mut r = String::from_str(" at ");
                    r.append(p.as_str());
                    r.append(", line ");
                    let num = render_number(self.line_number);
                    r.append(num.as_str());
                    r
                } else {
                    let mut r = String::from_str(" in ");
                    r.append(p.as_str());
                    r
                }
            },
            None => {
                if self.line_number != 0 {
                    let mut r = String::from_str(" at line ");
                    let num = render_number(self.line_number);
                    r.append(num.as_str());
                    r
                } else {
                    String::new()
                }
            },
        }
    }
}

/// An error enriched with the place in the input it arose at.
#[derive(Debug, Clone, PartialEq, Eq)]
pub struct InputError {
    pub loc: InputLoc,
    pub source: ChartError,
}

impl InputError {
    /// Wraps an error with its location.
    pub fn new(loc: InputLoc, source: ChartError) -> (r: InputError)
        ensures
            r.loc == loc,
            r.source == source,
    {
        InputError { loc, source }
    }

    /// Fills the source path into the location.
    pub fn set_path(&mut self, path: &str)
        ensures
            final(self).loc.path matches Some(p) && p@ == path@,
            final(self).loc.line_number == old(self).loc.line_number,
            final(self).source == old(self).source,
    {
        self.loc = self.loc.with_path(path);
    }

    /// Renders the error: the cause's message followed by the location.
    pub fn render(&self) -> (r: String)
        ensures
            r@ == self.source.message_chars() + loc_chars(
                path_view(self.loc.path),
                self.loc.line_number,
            ),
    {
        let mut r = self.source.message();
        let loc = self.loc.render();
        r.append(loc.as_str());
        r
    }
}

} // verus!
