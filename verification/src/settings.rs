use vstd::prelude::*;

verus! {

/// What a compilation was asked to do.
#[derive(Debug)]
pub struct CompileSettings {
    /// Whether constants are folded.
    pub fold_constants: bool,
    /// Whether nodes that no output needs are dropped.
    pub prune: bool,
    /// The module that the blueprint is made for.
    pub main_mod_name: String,
}

impl CompileSettings {
    /// A copy of the settings.
    pub fn duplicate(&self) -> (r: CompileSettings)
        ensures
            r == *self,
    {
        CompileSettings {
            fold_constants: self.fold_constants,
            prune: self.prune,
            main_mod_name: self.main_mod_name.clone(),
        }
    }
}

} // verus!
