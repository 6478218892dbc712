use vstd::prelude::*;

verus! {

/// The repository context an object belongs to: the directory that holds
/// the object store. Only used to derive storage paths; the library never
/// touches the filesystem itself.
pub struct Repo {
    pub git_dir: String,
}

} // verus!
