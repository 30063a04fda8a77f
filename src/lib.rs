//! Single-inheritance object model compiler: a symbol table for declared
//! types, fields and methods, the passes that bind and lay out a type
//! hierarchy, and the synthesis of code for handles, conversions,
//! constructors and virtual dispatch.

pub mod arena;
pub mod key;
pub mod shared_array;
pub mod shared_map;
pub mod symbol;
pub mod tree;
pub mod host;
pub mod binder;
pub mod layout;
pub mod handle;
pub mod runtime;
pub mod args;
pub mod constructor;
pub mod rewrite;
pub mod methods;
pub mod dispatch;
pub mod compiler;

pub use arena::Arena;
pub use runtime::SModelError;
