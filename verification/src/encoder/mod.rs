//! The encoders that chunks are handed to.
use crate::encoder::aom::{
    extract_first_pass_frames_fallback, extract_second_pass_frames_fallback, first_pass_by_word,
    first_pass_frames, parse_first_pass_frames, parse_second_pass_frames, second_pass_by_word,
    second_pass_frames,
};
use vstd::prelude::*;
use vstd::string::*;

pub mod aom;
pub mod generic;

verus! {

/// How far a chunk has been encoded.
#[derive(Copy, Clone, Debug)]
pub struct PassProgress {
    pub chunk_index: usize,
    pub frames_encoded: usize,
}

/// An encoder that frames are piped into.
pub trait Encoder {
    /// The place for an FFmpeg pipe. No encoder needs one, and this does nothing.
    fn compose_ffmpeg_pipe() {
    }
}

/// libaom reference AV1 encoder
pub struct Aom {}

impl Encoder for Aom {

}

/// Reads the frame count of a second pass line, in one window as on x86, or word by word.
pub fn extract_second_pass_frame(s: &str, windowed: bool) -> (r: Option<usize>)
    ensures
        r == second_pass_frames(s.spec_bytes(), windowed),
{
    parse_second_pass_frames(s, windowed)
}

/// Reads the frame count of a first pass line, in one window as on x86, or word by word.
pub fn extract_first_pass_frame(s: &str, windowed: bool) -> (r: Option<usize>)
    ensures
        r == first_pass_frames(s.spec_bytes(), windowed),
{
    parse_first_pass_frames(s, windowed)
}

/// Reads the frame count of a first pass line word by word.
pub fn extract_first_pass_frame_fallback(s: &str) -> (r: Option<usize>)
    ensures
        r == first_pass_by_word(s.spec_bytes()),
{
    extract_first_pass_frames_fallback(s)
}

/// Reads the frame count of a second pass line word by word.
pub fn extract_second_pass_frame_fallback(s: &str) -> (r: Option<usize>)
    ensures
        r == second_pass_by_word(s.spec_bytes()),
{
    extract_second_pass_frames_fallback(s)
}

} // verus!
