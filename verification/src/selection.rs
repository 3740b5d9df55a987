//! Which engine a server runs on.
//!
//! A server notes the name of its engine beside its data. When it starts
//! again it runs on that engine, and refuses to start on another.

use vstd::prelude::*;
use vstd::string::StringExecFns;

verus! {

/// The engines that a server can run on.
#[derive(Clone, Copy, Debug, PartialEq, Eq, Structural)]
pub enum StorageEngine {
    Kvs,
    Sled,
}

/// Why no engine was selected.
#[derive(Clone, Copy, Debug, PartialEq, Eq, Structural)]
pub enum SelectionError {
    /// A name that is no engine's.
    InvalidName,
    /// The engine that was asked for is not the one that the data was
    /// written by.
    Mismatch,
}

/// The engine of this name.
pub open spec fn engine_named(name: Seq<char>) -> Result<StorageEngine, SelectionError> {
    if name == "kvs"@ {
        Ok(StorageEngine::Kvs)
    } else if name == "sled"@ {
        Ok(StorageEngine::Sled)
    } else {
        Err(SelectionError::InvalidName)
    }
}

/// The engine to run on, given the one that was asked for and the one that
/// was noted, if any. A noted name that is no engine's is an error. With
/// nothing noted, the engine is the one asked for, or `Kvs`. With an engine
/// noted, it is that one, and to ask for another is an error.
pub open spec fn selected(requested: Option<Seq<char>>, noted: Option<Seq<char>>) -> Result<
    StorageEngine,
    SelectionError,
> {
    match noted {
        Some(name) => match engine_named(name) {
            Ok(engine) => match requested {
                Some(wanted) => if wanted == engine.name() {
                    Ok(engine)
                } else {
                    Err(SelectionError::Mismatch)
                },
                None => Ok(engine),
            },
            Err(e) => Err(e),
        },
        None => match requested {
            Some(wanted) => engine_named(wanted),
            None => Ok(StorageEngine::Kvs),
        },
    }
}

impl StorageEngine {
    /// The engine's name.
    pub open spec fn name(self) -> Seq<char> {
        match self {
            StorageEngine::Kvs => "kvs"@,
            StorageEngine::Sled => "sled"@,
        }
    }

    /// The engine's name.
    pub fn to_str(&self) -> (s: &'static str)
        ensures
            s@ == self.name(),
    {
        match self {
            StorageEngine::Kvs => "kvs",
            StorageEngine::Sled => "sled",
        }
    }

    /// The engine of the name `s`, if it is an engine's name.
    pub fn try_from_string(s: &str) -> (r: Result<StorageEngine, SelectionError>)
        ensures
            r == engine_named(s@),
    {
        let name = String::from_str(s);
        if name == String::from_str("kvs") {
            Ok(StorageEngine::Kvs)
        } else if name == String::from_str("sled") {
            Ok(StorageEngine::Sled)
        } else {
            Err(SelectionError::InvalidName)
        }
    }
}

/// Selects the engine to run on: `requested` is the name that was asked
/// for, `noted` the name that was written down when the data was made.
pub fn select_engine(requested: Option<String>, noted: Option<String>) -> (r: Result<
    StorageEngine,
    SelectionError,
>)
    ensures
        r == selected(
            match requested {
                Some(name) => Some(name@),
                None => None,
            },
            match noted {
                Some(name) => Some(name@),
                None => None,
            },
        ),
{
    match noted {
        Some(name) => match StorageEngine::try_from_string(name.as_str()) {
            Ok(engine) => match requested {
                Some(wanted) => {
                    if wanted == String::from_str(engine.to_str()) {
                        Ok(engine)
                    } else {
                        Err(SelectionError::Mismatch)
                    }
                },
                None => Ok(engine),
            },
            Err(e) => Err(e),
        },
        None => match requested {
            Some(wanted) => StorageEngine::try_from_string(wanted.as_str()),
            None => Ok(StorageEngine::Kvs),
        },
    }
}

} // verus!
