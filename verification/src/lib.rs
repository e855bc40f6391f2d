//! Verified core of an archive and media compression tool: format detection,
//! path safety, output planning and the decisions that drive long-running tasks.
pub mod archives;
pub mod media;
pub mod models;
pub mod open_request;
pub mod order;
pub mod paths;
pub mod progress;
pub mod suggest;
pub mod tasks;
pub mod text;
