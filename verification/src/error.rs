//! Why a read was given up.

use vstd::prelude::*;

verus! {

/// The two ways in which reading a client's first packet fails.
#[derive(Clone, Copy, Debug, PartialEq, Eq, Structural)]
pub enum ErrorKind {
    /// The peer closed before the bytes asked for had come.
    UnexpectedEof,
    /// The bytes are not what the protocol allows.
    InvalidData,
}

} // verus!
