//! A fixed-size, round-robin time-series store: the header codec, the
//! retention schema and the slot arithmetic of its archives.

pub mod carbon;
pub mod whisper;
