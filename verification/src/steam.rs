//! Steam Workshop bookkeeping that does not need a Steam connection:
//! query batching and de-duplication, collection expansion, download
//! preflight limits, publish tags and content folders.
pub mod background;
pub mod downloads;
pub mod publishing;
pub mod runtime;
pub mod webapi;
pub mod workshop;
