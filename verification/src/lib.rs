//! A segmented, append-only write-ahead log of window garbage-collection
//! events.
//!
//! An event is written as a frame (`event`, `frame`); a segment is a run
//! of frames that is closed by a footer once it is sealed (`footer`,
//! `segment`). The writer appends to the one active segment and seals it
//! when it has grown too large or too old (`writer`); the log keeps the
//! sealed segments in order, replays the events, and removes the segments
//! that are older than a retention boundary (`wal`); a reader pulls events
//! one at a time (`reader`). After a shutdown, clean or not, the log is
//! put together again from what storage holds (`recovery`).
//!
//! The library holds the log in memory and decides; it reads and writes no
//! file. Whoever stores the log writes the bytes that an append returns a
//! receipt for, and hands the stored bytes back to recover.
//!
//! What the functions promise is stated over the events of a log as a
//! sequence, in the order of the appends (`log`). The lemmas beside them
//! state what holds of several functions together: that decoding undoes
//! encoding, that a replay hands out the events in the order of the
//! appends whatever segments they were spread over, that passing over
//! segments by their footers loses no event, that sealing names the latest
//! end, and that recovery cuts the log where the first frame that does not
//! decode starts.

pub mod error;
pub mod event;
pub mod footer;
pub mod frame;
pub mod log;
pub mod pipeline;
pub mod reader;
pub mod recovery;
pub mod scan;
pub mod segment;
mod text;
pub mod time;
pub mod wal;
pub mod wire;
pub mod writer;
