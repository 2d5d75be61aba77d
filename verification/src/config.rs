//! Settings.
use crate::decimal::{parse_u64, parsed};
use crate::ordmap::OrdMap;
use crate::query::some_text;
use crate::text::{is_word, lowered, same};
use vstd::prelude::*;

verus! {

/// When the log is forced to disk.
#[derive(Clone, Copy, Debug, PartialEq, Eq, Structural)]
pub enum FsyncMode {
    Always,
    Interval,
    Never,
}

/// The settings of a node.
#[derive(Clone, Debug)]
pub struct Config {
    pub port: u16,
    pub role: String,
    pub leader_url: String,
    pub sync_interval_secs: u64,
    pub autoload_path: Option<String>,
    pub segment_dir: String,
    pub segment_max_mb: u64,
    pub compact_wal_count: usize,
    pub compact_wal_mb: u64,
    pub fsync_mode: FsyncMode,
    pub fsync_interval_ms: u64,
    pub shard_key: Option<String>,
    pub shard_index: u64,
    pub shard_total: u64,
}

/// What a variable is set to, or else the default.
pub open spec fn text_or(vars: Map<Seq<char>, String>, name: Seq<char>, default: Seq<char>) -> Seq<char> {
    if vars.contains_key(name) {
        vars[name]@
    } else {
        default
    }
}

/// The integer that a variable is set to, or else the default.
pub open spec fn number_or(vars: Map<Seq<char>, String>, name: Seq<char>, default: u64) -> u64 {
    if vars.contains_key(name) {
        match parsed(vars[name]@) {
            Some(n) => n,
            None => default,
        }
    } else {
        default
    }
}

/// What a variable is set to, where that is not the empty text.
pub open spec fn text_if_any(vars: Map<Seq<char>, String>, name: Seq<char>) -> Option<Seq<char>> {
    let s = text_or(vars, name, ""@);
    if s == ""@ {
        None
    } else {
        Some(s)
    }
}

/// The mode that a text names, in any case of its letters.
pub open spec fn mode_of(s: Seq<char>) -> FsyncMode {
    if lowered(s) == "always"@ {
        FsyncMode::Always
    } else if lowered(s) == "never"@ {
        FsyncMode::Never
    } else {
        FsyncMode::Interval
    }
}

fn env(vars: &OrdMap<String>, name: &str, default: &str) -> (r: String)
    ensures
        r@ == text_or(vars@, name@, default@),
{
    match vars.get(name) {
        Some(s) => s.clone(),
        None => default.to_owned(),
    }
}

fn env_u64(vars: &OrdMap<String>, name: &str, default: u64) -> (r: u64)
    ensures
        r == number_or(vars@, name@, default),
{
    match vars.get(name) {
        Some(s) => match parse_u64(s.as_str()) {
            Some(n) => n,
            None => default,
        },
        None => default,
    }
}

fn env_if_any(vars: &OrdMap<String>, name: &str) -> (r: Option<String>)
    ensures
        some_text(r) == text_if_any(vars@, name@),
{
    let s = env(vars, name, "");
    if same(s.as_str(), "") {
        None
    } else {
        Some(s)
    }
}

impl FsyncMode {
    /// The name of the mode.
    pub open spec fn name(self) -> Seq<char> {
        match self {
            FsyncMode::Always => "Always"@,
            FsyncMode::Interval => "Interval"@,
            FsyncMode::Never => "Never"@,
        }
    }

    /// The name of the mode.
    pub fn label(&self) -> (r: &'static str)
        ensures
            r@ == self.name(),
    {
        match self {
            FsyncMode::Always => "Always",
            FsyncMode::Interval => "Interval",
            FsyncMode::Never => "Never",
        }
    }

    /// The mode that a text names.
    fn parse(s: &str) -> (r: FsyncMode)
        ensures
            r == mode_of(s@),
    {
        if is_word(s, "always") {
            FsyncMode::Always
        } else if is_word(s, "never") {
            FsyncMode::Never
        } else {
            FsyncMode::Interval
        }
    }
}

impl Config {
    /// The settings that environment variables give. What is not set, or not as it should be, takes
    /// its default.
    pub fn from_env(vars: &OrdMap<String>) -> (r: Self)
        ensures
            r.port == number_or(vars@, "PORT"@, 3000) % 0x1_0000,
            r.role@ == text_or(vars@, "ROLE"@, "leader"@),
            r.leader_url@ == text_or(vars@, "LEADER_URL"@, "http://leader:3000"@),
            r.sync_interval_secs == number_or(vars@, "SYNC_INTERVAL_SECS"@, 5),
            some_text(r.autoload_path) == text_if_any(vars@, "AUTOLOAD_PATH"@),
            r.segment_dir@ == text_or(vars@, "SEGMENT_DIR"@, "./segments"@),
            r.segment_max_mb == number_or(vars@, "SEGMENT_MAX_MB"@, 64),
            r.compact_wal_count == number_or(vars@, "COMPACT_WAL_COUNT"@, 8) as usize,
            r.compact_wal_mb == number_or(vars@, "COMPACT_WAL_MB"@, 256),
            r.fsync_mode == mode_of(text_or(vars@, "FSYNC"@, "interval"@)),
            r.fsync_interval_ms == number_or(vars@, "FSYNC_INTERVAL_MS"@, 200),
            some_text(r.shard_key) == text_if_any(vars@, "SHARD_KEY"@),
            r.shard_index == number_or(vars@, "SHARD_INDEX"@, 0),
            r.shard_total == number_or(vars@, "SHARD_TOTAL"@, 1),
    {
        let port: u64 = env_u64(vars, "PORT", 3000);
        assert(port as u16 == port % 0x1_0000) by (bit_vector);
        Config {
            port: port as u16,
            role: env(vars, "ROLE", "leader"),
            leader_url: env(vars, "LEADER_URL", "http://leader:3000"),
            sync_interval_secs: env_u64(vars, "SYNC_INTERVAL_SECS", 5),
            autoload_path: env_if_any(vars, "AUTOLOAD_PATH"),
            segment_dir: env(vars, "SEGMENT_DIR", "./segments"),
            segment_max_mb: env_u64(vars, "SEGMENT_MAX_MB", 64),
            compact_wal_count: env_u64(vars, "COMPACT_WAL_COUNT", 8) as usize,
            compact_wal_mb: env_u64(vars, "COMPACT_WAL_MB", 256),
            fsync_mode: FsyncMode::parse(env(vars, "FSYNC", "interval").as_str()),
            fsync_interval_ms: env_u64(vars, "FSYNC_INTERVAL_MS", 200),
            shard_key: env_if_any(vars, "SHARD_KEY"),
            shard_index: env_u64(vars, "SHARD_INDEX", 0),
            shard_total: env_u64(vars, "SHARD_TOTAL", 1),
        }
    }

    /// Whether the node only reads.
    pub open spec fn follows(self) -> bool {
        self.role@ == "follower"@
    }

    /// Whether the node only reads.
    pub fn is_follower(&self) -> (r: bool)
        ensures
            r == self.follows(),
    {
        same(self.role.as_str(), "follower")
    }
}

} // verus!
