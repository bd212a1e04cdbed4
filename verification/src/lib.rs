//! A verified reader for CASC archives, targeting the StarCraft: Remastered
//! featureset.
//!
//! See the README for goals and layout.

pub mod archives;
pub mod blte;
pub mod bytes;
pub mod cache;
pub mod cdn;
pub mod cdnindex;
pub mod compose;
pub mod config;
pub mod digest;
pub mod encoding;
pub mod error;
pub mod http;
pub mod idx;
pub mod io;
pub mod jenkins;
pub mod keymap;
pub mod keys;
pub mod matcher;
pub mod object;
pub mod report;
pub mod root;
pub mod sanitize;
pub mod seeds;
pub mod select;
pub mod storage;
pub mod tact;
pub mod text;
pub mod textmap;

pub use error::CascError;
pub use keys::{ContentKey, EncodingKey, TruncatedKey};
pub use storage::Storage;
