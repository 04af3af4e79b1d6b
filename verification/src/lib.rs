//! Stable, persistent UUID allocation for string tags and type names.
//!
//! The library keeps a registry of two independent namespaces (tags and
//! types), each mapping a string key to a 128-bit UUID.  The registry is
//! serialized to a small structured text store; `allocate` reads a store's
//! text, returns the existing UUID for a key or inserts a fresh one and
//! produces the rewritten store text.

pub mod codec;
pub mod protocol;
pub mod registry;
pub mod uuid_text;
pub mod wrappers;

pub use codec::decode;
pub use codec::encode;
pub use codec::FormatError;
pub use protocol::allocate;
pub use protocol::allocate_with;
pub use protocol::type_key;
pub use protocol::Allocation;
pub use protocol::Test;
pub use registry::Entry;
pub use registry::Namespace;
pub use registry::Registry;
