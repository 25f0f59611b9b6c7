//! The results and errors of compiling a contract to WebAssembly.
use vstd::prelude::*;
use vstd::string::StringExecFns;

verus! {

/// A compiled contract: the bytes of its WebAssembly module.
#[derive(Debug)]
pub struct CompileResult {
    pub module_bytes: Vec<u8>,
}

/// Why generating WebAssembly failed.
#[derive(Debug)]
pub enum WasmGenerationError {
    NotImplemented,
    UnknownFunction(String),
    InternalError(String),
    EmptyListTraversal,
}

/// Why compiling a contract failed.
#[derive(Debug)]
pub enum CompileError {
    Wasm(WasmGenerationError),
}

/// The message of an error.
pub open spec fn error_message(e: WasmGenerationError) -> Seq<char> {
    match e {
        WasmGenerationError::NotImplemented => "Not implemented"@,
        WasmGenerationError::InternalError(msg) => "Internal error: "@ + msg@,
        WasmGenerationError::EmptyListTraversal => "Attempted to traverse an empty list"@,
        WasmGenerationError::UnknownFunction(name) => "Unknown function: "@ + name@,
    }
}

impl WasmGenerationError {
    /// A message that says what went wrong.
    pub fn message(&self) -> (m: String)
        ensures
            m@ == error_message(*self),
    {
        broadcast use vstd::string::to_string_from_display_ensures_for_str;

        match self {
            WasmGenerationError::NotImplemented => "Not implemented".to_string(),
            WasmGenerationError::InternalError(msg) => "Internal error: ".to_string().concat(msg.as_str()),
            WasmGenerationError::EmptyListTraversal => "Attempted to traverse an empty list".to_string(),
            WasmGenerationError::UnknownFunction(name) => "Unknown function: ".to_string().concat(name.as_str()),
        }
    }

    /// A suggestion for the user: there is none for these errors.
    pub fn suggestion(&self) -> (s: Option<String>)
        ensures
            s is None,
    {
        None
    }
}

} // verus!
