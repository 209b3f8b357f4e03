use vstd::prelude::*;

verus! {

/// The error taxonomy of the storage engine.
///
/// `IO` stands for a failure to read, write or flush the log file; the
/// surrounding process layer maps its concrete I/O errors onto it. `Serde`
/// stands for a failure to encode or decode a record payload. `KeyNotFound`
/// reports a missing key where a caller chooses to treat that as an error.
/// `UnExpectedCommandType` reports a decoded log record whose shape is
/// internally inconsistent, which is fatal during replay.
#[derive(Debug)]
pub enum KvsError {
    IO,
    Serde,
    KeyNotFound(String),
    UnExpectedCommandType,
}

} // verus!
