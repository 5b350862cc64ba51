use vstd::prelude::*;

verus! {

/// A unit stays small while none of its visible files is larger than this.
pub const SMALL_FILE_UPPER_BOUND: u64 = 10485760;

/// Bytes of one block record in the index tables.
pub const RECORD_SIZE: u64 = 64;

/// Number of redundancy blocks held in memory before they are spilled.
pub const MAX_REDUNDANCY_BLOCKS: usize = 1000;

pub const LOG_PATH: &'static str = "ideas.log";

pub const LOG_PATH_JSON: &'static str = "ideas-log.json";

pub const WORK_DIR: &'static str = "backup";

pub const LAYOUT_SUBDIR: &'static str = "layout";

pub const FILES_SUBDIR: &'static str = "files";

pub const INDEX_SUBDIR: &'static str = "index";

pub const REDUNDANCY_SUBDIR: &'static str = "redundancy";

pub const ENCRYPTION_KEY_SUBDIR: &'static str = "encryption-key";

} // verus!
