use vstd::prelude::*;

verus! {

/// What a run works on: the files to read and, for YAML extraction, the
/// dotted keys to resolve in each of them.
#[derive(Clone, Debug)]
pub struct Configuration {
    pub files: Vec<String>,
    pub keys: Vec<String>,
    pub cli: bool,
}

} // verus!
