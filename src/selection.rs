//! Which engine a server runs: the one asked for on the command line, and
//! the one that the working directory was last served with.
use vstd::prelude::*;

use crate::error::KvsError;

verus! {

/// The storage engines a server can run.
#[derive(Debug, Clone, Copy, PartialEq, Eq, Structural)]
pub enum EngineKind {
    /// The log-structured engine of this library.
    Kvs,
    /// The embedded `sled` database.
    Sled,
}

impl EngineKind {
    /// Reads an engine's name, as the marker file and the command line write it.
    pub fn parse(s: &String) -> (r: Option<EngineKind>)
        ensures
            r == (if s@ == "kvs"@ {
                Some(EngineKind::Kvs)
            } else if s@ == "sled"@ {
                Some(EngineKind::Sled)
            } else {
                None
            }),
    {
        let kvs = "kvs".to_string();
        let sled = "sled".to_string();
        if *s == kvs {
            Some(EngineKind::Kvs)
        } else if *s == sled {
            Some(EngineKind::Sled)
        } else {
            None
        }
    }

    /// The engine's name.
    pub fn name(&self) -> (r: String)
        ensures
            r@ == (match self {
                EngineKind::Kvs => "kvs"@,
                EngineKind::Sled => "sled"@,
            }),
    {
        match self {
            EngineKind::Kvs => "kvs".to_string(),
            EngineKind::Sled => "sled".to_string(),
        }
    }
}

/// Picks the engine to run from the one asked for and the one recorded in
/// the working directory: asking for an engine other than the recorded one
/// is `EngineMismatch`; without a request the recorded one stays; with
/// neither, the log-structured engine.
pub fn select_engine(requested: Option<EngineKind>, recorded: Option<EngineKind>) -> (r: Result<
    EngineKind,
    KvsError,
>)
    ensures
        match (requested, recorded) {
            (Some(a), Some(b)) => if a == b {
                r == Ok::<EngineKind, KvsError>(a)
            } else {
                r == Err::<EngineKind, KvsError>(KvsError::EngineMismatch)
            },
            (Some(a), None) => r == Ok::<EngineKind, KvsError>(a),
            (None, Some(b)) => r == Ok::<EngineKind, KvsError>(b),
            (None, None) => r == Ok::<EngineKind, KvsError>(EngineKind::Kvs),
        },
{
    match (requested, recorded) {
        (Some(a), Some(b)) => if a == b {
            Ok(a)
        } else {
            Err(KvsError::EngineMismatch)
        },
        (Some(a), None) => Ok(a),
        (None, Some(b)) => Ok(b),
        (None, None) => Ok(EngineKind::Kvs),
    }
}

} // verus!
