//! Client connections and the events exchanged with the driver: what a read
//! attempt came back with, and what the dispatched handler decided.

use vstd::prelude::*;

verus! {

/// One accepted client connection, keyed by its descriptor. The peer
/// identity is carried only for reporting; correlation always goes by the
/// descriptor, which is unique while the connection is open.
#[derive(Debug, Clone, PartialEq, Eq)]
pub struct Connection {
    pub fd: i32,
    pub peer: String,
    pub alive: bool,
}

/// What one attempt to read a newline-terminated record came back with.
#[derive(Debug, Clone, PartialEq, Eq)]
pub enum ReadEvent {
    /// The read succeeded and returned these bytes; an empty read means the
    /// peer closed the connection.
    Line(Vec<u8>),
    /// The read failed.
    Failed,
}

/// A delivery to the line sink: which connection spoke, who the peer is, and
/// the record with its terminating newline removed.
#[derive(Debug, Clone, PartialEq, Eq)]
pub struct SinkEvent {
    pub fd: i32,
    pub peer: String,
    pub record: Vec<u8>,
}

/// What dispatching a read outcome decided.
#[derive(Debug, Clone, PartialEq, Eq)]
pub enum DispatchOutcome {
    /// A record arrived; hand it to the line sink; the connection stays
    /// registered.
    Delivered(SinkEvent),
    /// The peer closed or the read failed; the connection was marked dead
    /// and queued for removal at the end of the round.
    Closed,
}

/// `bytes` with one terminating newline removed, when one is present.
pub open spec fn strip_newline_spec(bytes: Seq<u8>) -> Seq<u8> {
    if bytes.len() > 0 && bytes.last() == 10u8 {
        bytes.drop_last()
    } else {
        bytes
    }
}

/// Removes the terminating newline of one record, if any.
pub fn strip_newline(bytes: Vec<u8>) -> (r: Vec<u8>)
    ensures
        r@ == strip_newline_spec(bytes@),
{
    let mut b = bytes;
    if b.len() > 0 {
        let last = b[b.len() - 1];
        if last == 10u8 {
            b.pop();
        }
    }
    b
}

} // verus!
