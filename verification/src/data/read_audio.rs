use vstd::prelude::*;
use crate::data::data_entry::TimelineEntry;

verus! {

/// Why the audio track of a file could not be read.
#[derive(Debug, Clone, Copy, PartialEq, Eq, Structural)]
pub enum ReadAudioError {
    Unreadable,
}

/// Timecodes encoded in a file's audio track. Audio decoding is not supported yet, so no entry
/// is ever found.
pub fn get_encoded_time_from_audio(path: &str, _start_time_ms: u64) -> (r: Result<Vec<TimelineEntry>, ReadAudioError>)
    ensures
        r matches Ok(v) && v@.len() == 0,
{
    let _ = path;
    Ok(Vec::new())
}

} // verus!
