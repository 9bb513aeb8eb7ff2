//! What a decoded replay file holds.

use serde_json::Value;
use vstd::prelude::*;

verus! {

/// The magic number that opens every replay file.
pub const REPLAY_MAGIC: u32 = 0x11343212;

/// A decoded replay: its envelope fields, its metadata and the decrypted
/// and inflated packet bytes.
#[derive(Debug, Clone, PartialEq)]
pub struct Replay {
    pub header: ReplayHeader,
    pub battle_config: BattleConfig,
    /// The battle results of the second metadata block, where the file has
    /// one that can be read.
    pub battle_results: Option<Value>,
    pub packets_buffer: Vec<u8>,
}

/// The two fixed fields at the start of a replay file.
#[derive(Debug, Clone, Copy, PartialEq, Eq, Structural)]
pub struct ReplayHeader {
    pub magic: u32,
    /// The number of metadata blocks the file claims to hold.
    pub block_count: u32,
}

/// The battle configuration of the first metadata block, taken over as it
/// stands.
#[derive(Debug, Clone, PartialEq, Eq)]
pub struct BattleConfig {
    pub player_name: String,
    pub player_vehicle: String,
    /// The client version that the game's configuration declares.
    pub client_version_xml: String,
    /// The client version of the executable.
    pub client_version_from_exe: String,
    pub date_time: String,
    pub map_name: String,
    pub gameplay_id: String,
}

} // verus!
