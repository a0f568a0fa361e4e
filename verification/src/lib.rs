//! A directory-bookmark registry: short names mapped to filesystem paths,
//! persisted as one record file per name, together with the sentinel-line
//! protocol through which a shell wrapper changes the caller's directory.

pub mod codec;
pub mod handlers;
pub mod protocol;
pub mod record;
pub mod store;
