use vstd::prelude::*;

verus! {

/// The errors of the store.
#[derive(Debug, PartialEq, Eq)]
pub enum KvsError {
    /// A removal named a key that the store does not hold.
    KeyNotFound,
    /// Bytes that are not a well-formed record or message.
    Serialization,
    /// An index entry led to a record that is not a write.
    UnexpectedCommandType,
    /// The engine recorded in the working directory is not the one asked for.
    EngineMismatch,
    /// The peer closed the stream in the middle of a message.
    ConnectionReset,
    /// A position or a counter of the log would exceed 64 bits.
    LogFull,
    /// The peer answered with a message that does not fit the request.
    UnexpectedResponse,
    /// A worker thread of a pool could not be started.
    PoolSpawn,
    /// A failure of the disk or the network, with its description.
    Io(String),
    /// An error reported by the other side, or by an embedded database, as text.
    StringError(String),
}

impl KvsError {
    /// The text of the error, as an error response carries it.
    pub open spec fn message_spec(&self) -> Seq<char> {
        match self {
            KvsError::KeyNotFound => "Key not found"@,
            KvsError::Serialization => "Malformed bytes"@,
            KvsError::UnexpectedCommandType => "Unexpected command type"@,
            KvsError::EngineMismatch => "Wrong engine"@,
            KvsError::ConnectionReset => "Connection reset by peer"@,
            KvsError::LogFull => "Log positions exhausted"@,
            KvsError::UnexpectedResponse => "Unexpected response"@,
            KvsError::PoolSpawn => "Failed to spawn a worker thread"@,
            KvsError::Io(m) => m@,
            KvsError::StringError(m) => m@,
        }
    }

    /// The text of the error.
    pub fn message(&self) -> (r: String)
        ensures
            r@ == self.message_spec(),
    {
        match self {
            KvsError::KeyNotFound => "Key not found".to_string(),
            KvsError::Serialization => "Malformed bytes".to_string(),
            KvsError::UnexpectedCommandType => "Unexpected command type".to_string(),
            KvsError::EngineMismatch => "Wrong engine".to_string(),
            KvsError::ConnectionReset => "Connection reset by peer".to_string(),
            KvsError::LogFull => "Log positions exhausted".to_string(),
            KvsError::UnexpectedResponse => "Unexpected response".to_string(),
            KvsError::PoolSpawn => "Failed to spawn a worker thread".to_string(),
            KvsError::Io(m) => m.clone(),
            KvsError::StringError(m) => m.clone(),
        }
    }
}

} // verus!
