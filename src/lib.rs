//! Streams a directory tree as a tar archive: the archive encoding, the
//! request validation, the walk order, and the bounded hand-off between the
//! producing worker and the consuming response body.
pub mod order;
pub mod tar;
pub mod writer;
pub mod channel;
pub mod request;
pub mod walk;
pub mod session;
pub mod listing;
