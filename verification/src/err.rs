//! The failures of the store and of its engines.

use vstd::prelude::*;
use vstd::string::StringExecFns;

verus! {

/// What can go wrong in an engine.
#[derive(Debug)]
pub enum KvsError {
    /// A key was to be removed that the store does not hold.
    KeyNotFound,
    /// Bytes that are no record.
    Codec,
    /// The file or the socket failed; the message says how.
    Io(String),
    /// The engine found its own state broken.
    Internal,
}

impl KvsError {
    /// The words in which the failure is reported.
    pub open spec fn message_text(self) -> Seq<char> {
        match self {
            KvsError::KeyNotFound => "key not found"@,
            KvsError::Codec => "malformed record"@,
            KvsError::Io(msg) => "io: "@ + msg@,
            KvsError::Internal => "engine state is inconsistent"@,
        }
    }

    /// The words in which the failure is reported.
    pub fn message(&self) -> (msg: String)
        ensures
            msg@ == self.message_text(),
    {
        match self {
            KvsError::KeyNotFound => String::from_str("key not found"),
            KvsError::Codec => String::from_str("malformed record"),
            KvsError::Io(msg) => String::from_str("io: ").concat(msg.as_str()),
            KvsError::Internal => String::from_str("engine state is inconsistent"),
        }
    }
}

/// Only a missing key is reported in the words of a missing key.
pub proof fn lemma_key_not_found_words(e: KvsError)
    ensures
        e.message_text() == KvsError::KeyNotFound.message_text() <==> e is KeyNotFound,
{
    reveal_strlit("key not found");
    reveal_strlit("malformed record");
    reveal_strlit("io: ");
    reveal_strlit("engine state is inconsistent");
    match e {
        KvsError::Io(msg) => {
            assert(("io: "@ + msg@)[0] == 'i');
            assert("key not found"@[0] == 'k');
        },
        KvsError::Codec => {
            assert("malformed record"@.len() == 16);
            assert("key not found"@.len() == 13);
        },
        KvsError::Internal => {
            assert("engine state is inconsistent"@.len() == 28);
            assert("key not found"@.len() == 13);
        },
        KvsError::KeyNotFound => {},
    }
}

} // verus!
