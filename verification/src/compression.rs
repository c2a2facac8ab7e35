//! Interpreting what the miniz compression routines report.
use vstd::prelude::*;

verus! {

/// The message for a miniz status code that the compression calls treat as a failure:
/// stream end (1), need of a dictionary (2), errno (-1), memory (-4), buffer (-5) and
/// version (-6) errors. Other codes count as success.
pub open spec fn failure_message(status: i32) -> Option<Seq<char>> {
    if status == 1 {
        Some("Stream error"@)
    } else if status == 2 {
        Some("Dict error"@)
    } else if status == -1 {
        Some("Check errno"@)
    } else if status == -4 {
        Some("Memory Error"@)
    } else if status == -5 {
        Some("Buffer Error"@)
    } else if status == -6 {
        Some("Version Error"@)
    } else {
        None
    }
}

/// The outcome of a compression or decompression call that reported `status` and filled
/// `buffer`: the message of a failure, or the buffer.
pub fn compression_result(status: i32, buffer: Vec<u8>) -> (r: Result<Vec<u8>, &'static str>)
    ensures
        match failure_message(status) {
            Some(m) => r matches Err(s) && s@ == m,
            None => r == Ok::<Vec<u8>, &'static str>(buffer),
        },
{
    if status == 1 {
        Err("Stream error")
    } else if status == 2 {
        Err("Dict error")
    } else if status == -1 {
        Err("Check errno")
    } else if status == -4 {
        Err("Memory Error")
    } else if status == -5 {
        Err("Buffer Error")
    } else if status == -6 {
        Err("Version Error")
    } else {
        Ok(buffer)
    }
}

} // verus!
