//! Connection records for a desktop database client: the entries that the
//! client stores, the rules by which it files, orders, exports and imports
//! them, and the small text formats (data URLs, JSON responses, certificate
//! fingerprints) that travel with them.

pub mod certs;
pub mod entry;
pub mod export;
pub mod filing;
pub mod icon;
pub mod import;
pub mod response;
pub mod store;
pub mod text;
pub mod wrappers;
