use vstd::prelude::*;
use crate::buffer::SharedBuffer;
use crate::paths::CrossPath;

verus! {

/// Initialisation cannot fail in this version: the type is kept for the
/// interface and no value of it is ever constructed.
pub enum InitError {
    Never,
}

/// Opening through a repository cannot fail in this version: the type is
/// kept for the interface and no value of it is ever constructed.
pub enum OpenError {
    Never,
}

/// A cursor over the paths of a repository, walked depth-first.
pub trait Cursor {
    /// The name of the entry the cursor stands on, or `None` when exhausted.
    fn name(&self) -> Option<String>;

    fn descend(&mut self);

    fn ascend(&mut self);

    fn next_sibling(&mut self);
}

/// A source of buffers addressed by path, with an enumerable set of paths.
pub trait Repository {
    type Paths: Cursor;

    fn open(&self, path: &CrossPath) -> Result<SharedBuffer, OpenError>;

    fn paths(&self) -> Self::Paths;
}

/// A repository backed by a local directory tree: it additionally exposes
/// its absolute root path and reports when its tree is fully enumerated.
pub trait LocalRepository: Repository {
    fn path(&self) -> CrossPath;

    fn ready(&self) -> Result<(), InitError>;
}

} // verus!
