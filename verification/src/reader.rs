//! The file-reading command: the whole file is read as text by the
//! surrounding application; this module fixes what is returned for each
//! outcome of that read.

use vstd::prelude::*;
use crate::listing::FsError;

verus! {

/// The file-reading command, over the outcome the filesystem reported: the
/// decoded text of the whole file, or the message of the failed read.  A
/// successful read is returned verbatim; any failure — a missing path, an
/// unreadable node, a directory, undecodable bytes — becomes `ReadFailed`
/// carrying the reported message.
pub fn read_file_content(outcome: Result<String, String>) -> (r: Result<String, FsError>)
    ensures
        outcome is Ok ==> (r matches Ok(text) && text@ == outcome->Ok_0@),
        outcome is Err ==> (r matches Err(e) && e matches FsError::ReadFailed(m) && m@
            == outcome->Err_0@),
{
    match outcome {
        Ok(text) => Ok(text),
        Err(m) => Err(FsError::ReadFailed(m)),
    }
}

} // verus!
