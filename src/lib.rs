//! Asset acquisition and caching for a resource-pack editor: an in-memory
//! image cache keyed by logical path, and the decisions of the pipeline that
//! fetches a game-client archive and extracts its asset tree.
pub mod archive;
pub mod pipeline;
pub mod preloader;
pub mod versions;
