use vstd::prelude::*;

pub mod ptr;
pub mod runtime;
pub mod allocator;
pub mod bytes;
pub mod compiler;
pub mod context;
pub mod fold;
pub mod host;
pub mod native;
pub mod serialization;
pub mod stack;
pub mod stdlib;
pub mod value;
pub mod values;
