//! The opening policy for the main document, applied before any byte reaches
//! the parser: only a regular file, never more than the limit, only UTF-8.
use vstd::prelude::*;
use vstd::utf8::{decode_utf8, valid_utf8};
use crate::strings::string_from_utf8;

verus! {

/// Why a document is not opened, once the file could be read.
#[derive(Clone, Copy, Debug, PartialEq, Eq, Structural)]
pub enum OpenRejection {
    NotAFile,
    TooLarge { bytes: u64, limit: u64 },
    InvalidUtf8,
}

/// What the file's metadata allows: a regular file whose declared size is
/// within the limit.
pub fn admit_document(is_file: bool, declared_len: u64, limit: u64) -> (r: Result<(), OpenRejection>)
    ensures
        r == (if !is_file {
            Err(OpenRejection::NotAFile)
        } else if declared_len > limit {
            Err(OpenRejection::TooLarge { bytes: declared_len, limit })
        } else {
            Ok(())
        }),
{
    if !is_file {
        return Err(OpenRejection::NotAFile);
    }
    if declared_len > limit {
        return Err(OpenRejection::TooLarge { bytes: declared_len, limit });
    }
    Ok(())
}

/// The text of the bytes actually read: too many bytes (the file may have
/// grown since its size was read) or bytes that are not UTF-8 never become
/// text.
pub fn decode_document(bytes: Vec<u8>, limit: u64) -> (r: Result<String, OpenRejection>)
    ensures
        bytes@.len() > limit ==> r == Err::<String, OpenRejection>(
            OpenRejection::TooLarge { bytes: if bytes@.len() > u64::MAX { u64::MAX } else { bytes@.len() as u64 }, limit },
        ),
        bytes@.len() <= limit && !valid_utf8(bytes@) ==> r == Err::<String, OpenRejection>(OpenRejection::InvalidUtf8),
        bytes@.len() <= limit && valid_utf8(bytes@) ==> (r matches Ok(s) && s@ == decode_utf8(bytes@)),
{
    let n = bytes.len();
    let len: u64 = if n as u128 > u64::MAX as u128 {
        u64::MAX
    } else {
        n as u64
    };
    if len > limit {
        return Err(OpenRejection::TooLarge { bytes: len, limit });
    }
    match string_from_utf8(bytes) {
        Some(s) => Ok(s),
        None => Err(OpenRejection::InvalidUtf8),
    }
}

} // verus!
