//! Tuning knobs of the leveled engine.

use vstd::prelude::*;

verus! {

/// Number of levels of sorted tables.
pub const NUM_LEVELS: i32 = 7;

/// Deepest level that the output of a memtable may be placed at.
pub const MAX_MEM_COMPACT_LEVEL: i32 = 2;

/// Number of level-0 files at which the level's compaction score is 1.
pub const L0_COMPACTION_TRIGGER: u64 = 4;

/// Number of level-0 files at which writes wait for compaction.
pub const L0_STOP_WRITES_TRIGGER: u64 = 12;

/// Size of a memtable above which it is sealed and flushed.
pub const COMPACT_MEMTABLE_THRESHOLD: u64 = 1048576;

/// Sizes and limits of tables and buffers.
#[derive(Debug, Clone, Copy, PartialEq, Eq, Structural)]
pub struct Options {
    pub max_file_size: usize,
    pub write_buffer_size: usize,
    pub max_open_files: i32,
    pub block_size: usize,
    pub block_restart_interval: i32,
}

/// The options that the engine runs with where none are given.
pub open spec fn default_options() -> Options {
    Options {
        max_file_size: 2097152,
        write_buffer_size: 4194304,
        max_open_files: 1000,
        block_size: 4096,
        block_restart_interval: 16,
    }
}

impl Default for Options {
    fn default() -> (options: Options)
        ensures
            options == default_options(),
    {
        Options {
            max_file_size: 2097152,
            write_buffer_size: 4194304,
            max_open_files: 1000,
            block_size: 4096,
            block_restart_interval: 16,
        }
    }
}

/// The name of a file of the data directory: its number, a dot, its label.
pub open spec fn file_name(number: u64, label: Seq<char>) -> Seq<char> {
    decimal(number as nat) + seq!['.'] + label
}

/// The decimal digits of a number.
pub open spec fn decimal(n: nat) -> Seq<char>
    decreases n,
{
    if n < 10 {
        seq![digit(n)]
    } else {
        decimal(n / 10) + seq![digit(n % 10)]
    }
}

/// The character of a digit below ten.
pub open spec fn digit(d: nat) -> char {
    if d == 0 {
        '0'
    } else if d == 1 {
        '1'
    } else if d == 2 {
        '2'
    } else if d == 3 {
        '3'
    } else if d == 4 {
        '4'
    } else if d == 5 {
        '5'
    } else if d == 6 {
        '6'
    } else if d == 7 {
        '7'
    } else if d == 8 {
        '8'
    } else {
        '9'
    }
}

} // verus!
