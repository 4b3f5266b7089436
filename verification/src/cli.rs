//! Global invocation options, independent of the chosen operation. The
//! binary fills this in from its argument parser; the library only ever
//! reads it.

use vstd::prelude::*;

use crate::paths::{path_wf, NormPath};

verus! {

/// Options shared by every operation: where the dotfiles repository lives.
#[derive(Debug)]
pub struct GlobalArgs {
    /// The absolute path of the dotfiles repository root directory.
    pub dotfiles_root: NormPath,
}

impl GlobalArgs {
    /// A usable set of global options: the repository root is an absolute,
    /// well-formed path.
    pub open spec fn wf(&self) -> bool {
        &&& self.dotfiles_root@.absolute
        &&& path_wf(self.dotfiles_root@)
    }
}

} // verus!
