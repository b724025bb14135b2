use vstd::prelude::*;
use crate::util::mp_command_codec::{FrameStatus, frame_status, spec_frame_status};

verus! {

/// Decoder of length-prefixed frames of command buffers.
pub struct MpCommandDecoder {}

/// Command buffer maximum number of commands.
pub const MAX_CMD_BUF_SIZE: usize = 1024;

impl MpCommandDecoder {
    /// Reads the front of `src` (see `spec_frame_status`).
    pub fn frame(&self, src: &[u8]) -> (r: FrameStatus)
        ensures
            r == spec_frame_status(src@),
    {
        frame_status(src)
    }
}

} // verus!
