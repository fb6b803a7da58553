//! What can go wrong with a command.

use crate::config::fault_message;
use crate::config::ConfigError;
use crate::store::store_message;
use crate::store::StoreError;
use crate::text::cat;
use vstd::prelude::*;

verus! {

/// Why a command failed.
#[derive(Debug)]
pub enum CliError {
    Store(StoreError),
    Config(ConfigError),
    Io(String),
    Json(String),
    Validation(String),
    RunNotFound(String),
    ExecutionFailed(String),
    Anyhow(String),
}

/// What is said of a failed command.
pub open spec fn error_message(e: CliError) -> Seq<char> {
    match e {
        CliError::Store(e) => "store error: "@ + store_message(e),
        CliError::Config(e) => "configuration error: "@ + fault_message(e@),
        CliError::Io(s) => "I/O error: "@ + s@,
        CliError::Json(s) => "JSON error: "@ + s@,
        CliError::Validation(s) => "validation error: "@ + s@,
        CliError::RunNotFound(s) => "run not found: "@ + s@,
        CliError::ExecutionFailed(s) => "execution failure: "@ + s@,
        CliError::Anyhow(s) => "execution error: "@ + s@,
    }
}

impl CliError {
    /// The message for the user.
    pub fn message(&self) -> (r: String)
        ensures
            r@ == error_message(*self),
    {
        match self {
            CliError::Store(e) => cat("store error: ", e.message().as_str()),
            CliError::Config(e) => cat("configuration error: ", e.message().as_str()),
            CliError::Io(s) => cat("I/O error: ", s.as_str()),
            CliError::Json(s) => cat("JSON error: ", s.as_str()),
            CliError::Validation(s) => cat("validation error: ", s.as_str()),
            CliError::RunNotFound(s) => cat("run not found: ", s.as_str()),
            CliError::ExecutionFailed(s) => cat("execution failure: ", s.as_str()),
            CliError::Anyhow(s) => cat("execution error: ", s.as_str()),
        }
    }

    /// The line that a failed command ends with.
    pub fn line(&self) -> (r: String)
        ensures
            r@ == "[ERROR][CLI] "@ + error_message(*self),
    {
        cat("[ERROR][CLI] ", self.message().as_str())
    }
}

/// The failed command that is told in these words.
pub fn invalid(text: &str) -> (r: CliError)
    ensures
        r matches CliError::Validation(s) && s@ == text@,
{
    CliError::Validation(text.to_owned())
}

/// The message for an error says in its first words where it comes from, and then all that is known of
/// it.
pub proof fn lemma_errors_told(e: CliError)
    ensures
        e matches CliError::Store(StoreError::Serialization(s)) ==> error_message(e)
            == "store error: serialization failed: "@ + s@,
        e matches CliError::Store(StoreError::Storage(s)) ==> error_message(e)
            == "store error: storage failed: "@ + s@,
        e matches CliError::Config(f) ==> error_message(e) == "configuration error: "@ + fault_message(f@),
        e matches CliError::Io(s) ==> error_message(e) == "I/O error: "@ + s@,
        e matches CliError::Json(s) ==> error_message(e) == "JSON error: "@ + s@,
        e matches CliError::Validation(s) ==> error_message(e) == "validation error: "@ + s@,
        e matches CliError::RunNotFound(s) ==> error_message(e) == "run not found: "@ + s@,
        e matches CliError::ExecutionFailed(s) ==> error_message(e) == "execution failure: "@ + s@,
        e matches CliError::Anyhow(s) ==> error_message(e) == "execution error: "@ + s@,
{
    reveal_strlit("store error: ");
    reveal_strlit("serialization failed: ");
    reveal_strlit("storage failed: ");
    reveal_strlit("store error: serialization failed: ");
    reveal_strlit("store error: storage failed: ");
    match e {
        CliError::Store(StoreError::Serialization(s)) => {
            assert(error_message(e) =~= "store error: serialization failed: "@ + s@);
        },
        CliError::Store(StoreError::Storage(s)) => {
            assert(error_message(e) =~= "store error: storage failed: "@ + s@);
        },
        _ => {},
    }
}

} // verus!
