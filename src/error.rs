use vstd::prelude::*;

verus! {

/// What can go wrong; each OS failure keeps its error code.
#[derive(Clone, Copy, Debug, PartialEq, Eq, Structural)]
pub enum Error {
    /// The descriptor could not be created.
    Init(i32),
    /// A watch could not be added or removed.
    Watch(i32),
    /// The descriptor could not be released.
    Close(i32),
    /// A read failed for a reason other than "no data yet".
    Read(i32),
    /// A read reported end of stream: the descriptor is no longer usable.
    EndOfStream,
    /// A path holds a byte that the OS string cannot carry (a nul).
    Encoding,
    /// The bytes read are not a sequence of whole records, or a name is not UTF-8.
    Decode,
}

} // verus!
