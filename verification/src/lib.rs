use vstd::prelude::*;

pub mod array;
pub mod bytes;
pub mod cmd_array;
pub mod cmd_hash;
pub mod cmd_keys;
pub mod cmd_list;
pub mod cmd_set;
pub mod cmd_zset;
pub mod command_laws;
pub mod hash;
pub mod held_values;
pub mod laws;
pub mod list;
pub mod members;
pub mod model;
pub mod pairs;
pub mod range;
pub mod snapshot;
pub mod store;
pub mod value;
pub mod views;
pub mod wellformed;
pub mod zset;

pub use model::DomainError;
pub use store::InMemoryStorage;
pub use value::Value;

verus! {

/// Path of the audit log that a test process reads back: the configured
/// base path itself, with nothing added.
pub fn get_audit_file_path(base_path: &str) -> (path: String)
    ensures
        path@ == base_path@,
{
    String::from_str(base_path)
}

} // verus!
