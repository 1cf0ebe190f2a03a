use vstd::prelude::*;

verus! {

/// Identifier of a registered document: a densely packed index assigned in
/// registration order and stable for the life of an index.
#[derive(PartialEq, Eq, Structural, Clone, Copy, Hash, Debug)]
pub struct DocumentId(pub usize);

impl DocumentId {
    pub fn id(&self) -> (r: usize)
        ensures
            r == self.0,
    {
        self.0
    }
}

/// Identifier of a pooled file: its index in the file pool.
#[derive(PartialEq, Eq, Structural, Clone, Copy, Hash, Debug)]
pub struct FileId(pub usize);

impl FileId {
    pub fn id(&self) -> (r: usize)
        ensures
            r == self.0,
    {
        self.0
    }
}

} // verus!
