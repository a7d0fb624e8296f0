//! Changing the log filter while the program runs.
//!
//! The filter is written as a list of directives. This module checks the
//! directives and decides whether the filter can be swapped; the swap
//! itself is left to the caller, who owns the handle of the subscriber.

use vstd::prelude::*;
use tracing_subscriber::filter::ParseError;
use crate::filter::{directives_accepted, is_readable, readable, try_new_filter, Filter};

verus! {

/// Why the log filter could not be changed.
#[derive(Debug)]
pub enum TracingError {
    /// One of the directives begins with white space and holds a character
    /// outside ASCII. Such directives are not handed to the reader of
    /// `tracing_subscriber`, which can fail on them.
    NotReadable,
    /// The directives are not a filter. The error says why.
    InvalidDirectives(ParseError),
    /// Logging has not been set up, so there is no filter to change.
    ReloadHandleNotSet,
}

pub type TracingResult<T> = Result<T, TracingError>;

/// Reads directives as a filter. The filter comes back for text that
/// `tracing_subscriber` can take and reads as a filter, together with that
/// text.
pub fn parse(directives: &str) -> (r: TracingResult<Filter>)
    ensures
        r is Ok == (readable(directives@) && directives_accepted(directives@)),
        r matches Ok(f) ==> f@ == directives@,
        r matches Err(e) ==> if readable(directives@) {
            e is InvalidDirectives
        } else {
            e is NotReadable
        },
{
    if !is_readable(directives) {
        return Err(TracingError::NotReadable);
    }
    match try_new_filter(directives.to_owned()) {
        Ok(filter) => Ok(filter),
        Err(e) => Err(TracingError::InvalidDirectives(e)),
    }
}

/// Prepares a change of the log filter. The directives are read first; then
/// it is checked that logging has been set up (`handle_set`). On success
/// the new filter comes back, for the caller to hand to the subscriber.
pub fn reload(directives: &str, handle_set: bool) -> (r: TracingResult<Filter>)
    ensures
        r is Ok == (readable(directives@) && directives_accepted(directives@) && handle_set),
        r matches Ok(f) ==> f@ == directives@,
        r matches Err(e) ==> if !readable(directives@) {
            e is NotReadable
        } else if !directives_accepted(directives@) {
            e is InvalidDirectives
        } else {
            e is ReloadHandleNotSet
        },
{
    match parse(directives) {
        Ok(filter) => {
            if handle_set {
                Ok(filter)
            } else {
                Err(TracingError::ReloadHandleNotSet)
            }
        },
        Err(e) => Err(e),
    }
}

} // verus!
