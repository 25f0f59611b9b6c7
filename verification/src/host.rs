//! The description of a host function as a WebAssembly module imports it.
use vstd::prelude::*;

verus! {

/// The module and name a host function is imported under, with the number of
/// its parameters and results.
#[derive(Debug)]
pub struct HostFunctionSignature {
    pub module: String,
    pub name: String,
    pub param_count: usize,
    pub result_count: usize,
}

impl HostFunctionSignature {
    /// The signature of the function `name` of `module`.
    pub fn new(module: &str, name: &str, param_count: usize, result_count: usize) -> (s: Self)
        ensures
            s.module@ == module@,
            s.name@ == name@,
            s.param_count == param_count,
            s.result_count == result_count,
    {
        broadcast use vstd::string::to_string_from_display_ensures_for_str;

        HostFunctionSignature {
            module: module.to_string(),
            name: name.to_string(),
            param_count,
            result_count,
        }
    }
}

} // verus!
