//! Decoding and encoding of the binary key/value tree format used by
//! application and package catalogs.

pub mod bytes;
pub mod catalog;
pub mod error;
pub mod laws;
pub mod lookup;
pub mod normalize;
pub mod parser;
pub mod roundtrip;
pub mod value;
pub mod writer;

pub use catalog::{App, AppInfo, AppInfoVersion, Package, PackageInfo, SHA1};
pub use error::VdfrError;
pub use parser::KeyValueOptions;
pub use value::{KeyValues, Value, VdfValue};
