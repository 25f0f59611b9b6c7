//! The outcome of a runtime function as WebAssembly receives it: an error
//! code and two values.
use vstd::prelude::*;

verus! {

/// An error of a runtime function, known to WebAssembly by its code.
#[derive(Debug, Clone, Copy, PartialEq, Eq, Structural)]
pub enum RuntimeError {
    InvalidRuntimeError,
    NoError,
    FunctionArgumentRequired,
    FailedToDeserializeValueFromMemory,
}

/// The code of an error.
pub open spec fn error_code(e: RuntimeError) -> i32 {
    match e {
        RuntimeError::InvalidRuntimeError => -1i32,
        RuntimeError::NoError => 0i32,
        RuntimeError::FunctionArgumentRequired => 1i32,
        RuntimeError::FailedToDeserializeValueFromMemory => 2i32,
    }
}

/// The error with code `code`, if there is one.
pub open spec fn error_of_code(code: i32) -> Option<RuntimeError> {
    if code == -1 {
        Some(RuntimeError::InvalidRuntimeError)
    } else if code == 0 {
        Some(RuntimeError::NoError)
    } else if code == 1 {
        Some(RuntimeError::FunctionArgumentRequired)
    } else if code == 2 {
        Some(RuntimeError::FailedToDeserializeValueFromMemory)
    } else {
        None
    }
}

impl RuntimeError {
    /// The code of this error.
    pub fn code(&self) -> (c: i32)
        ensures
            c == error_code(*self),
    {
        match self {
            RuntimeError::InvalidRuntimeError => -1,
            RuntimeError::NoError => 0,
            RuntimeError::FunctionArgumentRequired => 1,
            RuntimeError::FailedToDeserializeValueFromMemory => 2,
        }
    }

    /// The error with code `code`, if there is one.
    pub fn from_i32(code: i32) -> (r: Option<RuntimeError>)
        ensures
            r == error_of_code(code),
    {
        if code == -1 {
            Some(RuntimeError::InvalidRuntimeError)
        } else if code == 0 {
            Some(RuntimeError::NoError)
        } else if code == 1 {
            Some(RuntimeError::FunctionArgumentRequired)
        } else if code == 2 {
            Some(RuntimeError::FailedToDeserializeValueFromMemory)
        } else {
            None
        }
    }
}

/// The result of a runtime function: an error code and two values.
pub type FuncResult = (i32, i32, i32);

/// The error a result carries: the error with its code, or
/// `InvalidRuntimeError` where no error has that code.
pub open spec fn error_of_result(r: FuncResult) -> RuntimeError {
    match error_of_code(r.0) {
        Some(e) => e,
        None => RuntimeError::InvalidRuntimeError,
    }
}

/// Building, testing and reading the result `(code, value, value)` of a
/// runtime function.
pub trait FuncResultTrait: Sized {
    /// A failed result with the code of `error` and no values.
    fn error(error: RuntimeError) -> (r: FuncResult)
        ensures
            r == (error_code(error), 0i32, 0i32),
    {
        (error.code(), 0, 0)
    }

    /// Whether the result carries no error.
    fn is_success(&self) -> (b: bool);

    /// The error the result carries.
    fn get_error(&self) -> (e: RuntimeError);
}

impl FuncResultTrait for FuncResult {
    fn is_success(&self) -> (b: bool)
        ensures
            b == (self.0 == 0),
    {
        self.0 == 0
    }

    fn get_error(&self) -> (e: RuntimeError)
        ensures
            e == error_of_result(*self),
    {
        match RuntimeError::from_i32(self.0) {
            Some(err) => err,
            None => RuntimeError::InvalidRuntimeError,
        }
    }
}

/// Reading back the error of a failed result gives the error it was built
/// from, and only `NoError` makes a successful result.
pub proof fn law_error_roundtrip(e: RuntimeError)
    ensures
        error_of_result((error_code(e), 0i32, 0i32)) == e,
        (error_code(e) == 0) == (e == RuntimeError::NoError),
{
}

/// Every code that names an error is the code of that error.
pub proof fn law_code_roundtrip(code: i32)
    ensures
        error_of_code(code) matches Some(e) ==> error_code(e) == code,
{
}

} // verus!
