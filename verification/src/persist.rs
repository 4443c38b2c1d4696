//! What the server keeps between requests.

pub mod store;
