use vstd::prelude::*;

verus! {

/// Errors of batch mode.
#[derive(Debug)]
pub enum Error {
    /// Reading or writing a file failed; the text describes why.
    Io(String),
}

/// Batch mode over the named files. No transform is defined yet, so every
/// file is left as it is.
pub fn batch(files: &Vec<String>) -> (r: Result<(), Error>)
    ensures
        r is Ok,
{
    Ok(())
}

} // verus!
