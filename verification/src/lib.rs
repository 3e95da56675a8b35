//! A verified parser for WebDAV `PROPFIND` multistatus documents.
//!
//! The body of a `PROPFIND` response is tokenized into an event
//! stream and fed to an envelope state machine that recognizes the
//! fixed `multistatus` schema, while everything inside a `prop`
//! element is kept verbatim as a generic tree of arbitrary depth.
//! The machine itself is a specification function over the event
//! stream, and the executable parser is proved to return exactly what
//! the machine yields; the laws of the envelope (one entry per
//! `response` element, the verdicts on unbalanced and contentless
//! documents, the handling of self-closing property elements) are
//! proved of the machine.  The transport that fetches response bodies
//! lives outside the library.

use vstd::prelude::*;

pub mod dav;
pub mod events;
pub mod nextcloud;
pub mod pase_propfind;
pub mod prop;
pub mod status;
pub mod xml;

verus! {

/// Sum of two sizes; the inputs must not overflow.
pub fn add(left: usize, right: usize) -> (r: usize)
    requires
        left + right <= usize::MAX,
    ensures
        r == left + right,
{
    left + right
}

} // verus!
