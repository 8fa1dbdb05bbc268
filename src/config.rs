//! The run's configuration: chunk size and bak file cap.
use vstd::prelude::*;

use crate::packer::PackEngine;

verus! {

/// The byte count that `bytesize` reads from a size string such as `128MiB`.
pub uninterp spec fn parsed_byte_size(s: Seq<char>) -> Option<u64>;

/// `s` is a nonempty string of decimal digits.
pub open spec fn is_decimal(s: Seq<char>) -> bool {
    s.len() > 0 && forall|i: int| 0 <= i < s.len() ==> '0' <= #[trigger] s[i] <= '9'
}

/// The value of a string of decimal digits.
pub open spec fn decimal_value(s: Seq<char>) -> int
    decreases s.len(),
{
    if s.len() == 0 {
        0
    } else {
        decimal_value(s.drop_last()) * 10 + (s.last() as int - '0' as int)
    }
}

/// Relies on `bytesize::ByteSize::from_str`, which reads a size with an
/// optional unit; it first tries the string as a plain `u64`, so a string
/// of digits whose value fits is that many bytes.
#[verifier::external_body]
fn parse_byte_size(s: &str) -> (r: Option<u64>)
    ensures
        r == parsed_byte_size(s@),
        is_decimal(s@) && decimal_value(s@) <= u64::MAX ==> r == Some(decimal_value(s@) as u64),
{
    match <bytesize::ByteSize as core::str::FromStr>::from_str(s) {
        Ok(b) => Some(b.as_u64()),
        Err(_) => None,
    }
}

/// Why a configuration was refused.
#[derive(Clone, Copy, Debug, PartialEq, Eq)]
pub enum ConfigError {
    /// The chunk size string is not a size.
    InvalidChunkSize,
    /// The backup size string is not a size.
    InvalidBackupSize,
    /// Chunks must hold at least one byte.
    ZeroChunkSize,
    /// A bak file must be able to hold a whole chunk.
    BackupSmallerThanChunk,
}

/// Chunk size and bak file cap, checked once at start.
#[derive(Clone, Copy, Debug)]
pub struct Config {
    chunk_size: u64,
    backup_size: u64,
}

impl Config {
    pub closed spec fn spec_chunk_size(&self) -> u64 {
        self.chunk_size
    }

    pub closed spec fn spec_backup_size(&self) -> u64 {
        self.backup_size
    }

    /// Chunks are nonempty and a bak file holds at least one chunk.
    pub open spec fn wf(&self) -> bool {
        0 < self.spec_chunk_size() <= self.spec_backup_size()
    }

    pub fn new(chunk_size: u64, backup_size: u64) -> (r: Result<Config, ConfigError>)
        ensures
            chunk_size == 0 ==> r == Err::<Config, ConfigError>(ConfigError::ZeroChunkSize),
            chunk_size > 0 && backup_size < chunk_size ==> r == Err::<Config, ConfigError>(
                ConfigError::BackupSmallerThanChunk,
            ),
            0 < chunk_size <= backup_size ==> r is Ok && r->Ok_0.spec_chunk_size() == chunk_size
                && r->Ok_0.spec_backup_size() == backup_size,
            r is Ok ==> r->Ok_0.wf(),
    {
        if chunk_size == 0 {
            Err(ConfigError::ZeroChunkSize)
        } else if backup_size < chunk_size {
            Err(ConfigError::BackupSmallerThanChunk)
        } else {
            Ok(Config { chunk_size, backup_size })
        }
    }

    /// Reads both sizes (`128MiB`, `3GiB`, a plain byte count, ...).
    pub fn parse(chunk_size: &str, backup_size: &str) -> (r: Result<Config, ConfigError>)
        ensures
            parsed_byte_size(chunk_size@) is None ==> r == Err::<Config, ConfigError>(
                ConfigError::InvalidChunkSize,
            ),
            parsed_byte_size(chunk_size@) is Some && parsed_byte_size(backup_size@) is None ==> r
                == Err::<Config, ConfigError>(ConfigError::InvalidBackupSize),
            parsed_byte_size(chunk_size@) is Some && parsed_byte_size(backup_size@) is Some ==> {
                let c = parsed_byte_size(chunk_size@)->Some_0;
                let b = parsed_byte_size(backup_size@)->Some_0;
                &&& c == 0 ==> r == Err::<Config, ConfigError>(ConfigError::ZeroChunkSize)
                &&& c > 0 && b < c ==> r == Err::<Config, ConfigError>(
                    ConfigError::BackupSmallerThanChunk,
                )
                &&& 0 < c <= b ==> r is Ok && r->Ok_0.spec_chunk_size() == c
                    && r->Ok_0.spec_backup_size() == b
            },
            r is Ok ==> r->Ok_0.wf(),
    {
        let c = match parse_byte_size(chunk_size) {
            Some(c) => c,
            None => {
                return Err(ConfigError::InvalidChunkSize);
            },
        };
        let b = match parse_byte_size(backup_size) {
            Some(b) => b,
            None => {
                return Err(ConfigError::InvalidBackupSize);
            },
        };
        Config::new(c, b)
    }

    pub fn chunk_size(&self) -> (r: u64)
        ensures
            r == self.spec_chunk_size(),
    {
        self.chunk_size
    }

    pub fn backup_size(&self) -> (r: u64)
        ensures
            r == self.spec_backup_size(),
    {
        self.backup_size
    }

    /// A pack engine for a run with this configuration.
    pub fn engine(&self) -> (r: PackEngine)
        requires
            self.wf(),
        ensures
            r.wf(),
            r.chunk_size() == self.spec_chunk_size(),
            r.cap() == self.spec_backup_size(),
            r.payloads() == seq![Seq::<u8>::empty()],
            r.splits().len() == 0,
            r.contents().len() == 0,
            !r.in_file(),
    {
        PackEngine::new(self.chunk_size, self.backup_size)
    }
}

} // verus!
