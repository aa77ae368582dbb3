//! Replay recording and playback.

pub mod codec;
pub mod ghost;
pub mod key_event;
pub mod replay_data;
pub mod replay_player;
pub mod replay_recorder;
pub mod storage;
