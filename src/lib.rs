//! Records a stream of input events stamped with the frame and the elapsed time
//! at which they arrived, and replays chosen parts of it tick by tick.
//!
//! - [`timestamped_input`]: the append-only event log and its replay cursor.
//! - [`input_playback`]: the playback strategies and the per-tick state machine
//!   that decides which slice of the log is forwarded.
//! - [`input_capture`]: which input kinds are recorded, and the line format of
//!   the persisted log.
//! - [`frame_counting`]: the frame number of a simulation tick.

pub mod frame_counting;
pub mod input_capture;
pub mod input_playback;
pub mod timestamped_input;
