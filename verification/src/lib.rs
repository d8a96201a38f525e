//! Project/workspace core of a collaborative code editor: shared buffer
//! management with de-duplication across concurrent opens, cancellable fuzzy
//! path search over the union of one or more source trees, and the
//! service/replication contract that lets a remote peer mirror a project.

pub mod laws;
pub mod paths;
pub mod buffer;
pub mod fuzzy;
pub mod project;
pub mod remote;
pub mod repository;
pub mod search;
pub mod status;
pub mod tree;
