//! Verified core of a peer-to-peer file transfer tool and of a one-way file tree sync.

pub mod text;
pub mod hex;
pub mod blob_store;
pub mod protocol;
pub mod file_io;
pub mod transfer;
pub mod node;
pub mod echo;
pub mod logging;
pub mod webrtc;
pub mod ui_state;
pub mod tree_merge;
