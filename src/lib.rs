//! Intel HEX codec and sparse byte image.
//!
//! Parses Intel HEX text into a sparse image (an ordered map from absolute
//! address to byte), writes it back in a canonical layout, relocates it, and
//! searches it for byte patterns.

pub mod error;
pub mod record;
pub mod image;
pub mod store;
pub mod search;
pub mod writer;
pub mod roundtrip;
pub mod viewer;
pub mod loader;

pub use error::{IntelHexError, IntelHexErrorKind};
pub use image::{IntelHex, StartAddress};
pub use record::{Record, RecordType};
