//! The records of the metadata store and the steps of its schema migration.

use crate::cipher::SECRET_SIZE;
use crate::text::{decimal, decimal_string};
use vstd::prelude::*;

verus! {

/// A point in time: seconds since the Unix epoch and the nanoseconds beyond
/// them.
#[derive(Clone, Copy, Debug, PartialEq, Eq, Structural)]
pub struct Timestamp {
    pub secs: i64,
    pub nanos: u32,
}

/// The record of a drive.
#[derive(Debug, Clone)]
pub struct Drive {
    pub key: i32,
    /// The ID of the shared drive at the remote.
    pub id: String,
    /// When the drive was created.
    pub created_time: Timestamp,
}

/// The record of a file.
#[derive(Debug, Clone)]
pub struct File {
    pub key: i32,
    /// The ID of the file at the remote.
    pub id: String,
    /// The key of the drive that holds the file.
    pub drive_key: i32,
    /// The size of the plaintext.
    pub size: i64,
    /// The content type of the file.
    pub content_type: String,
    /// When the file was created.
    pub created_time: Timestamp,
    /// When the content of the file was last fetched.
    pub accessed_time: Timestamp,
    /// The key and base nonce that the content is sealed under.
    pub secret: Vec<u8>,
}

impl File {
    /// What holds of every stored record: the size is not negative, and the
    /// secret is a key and a base nonce.
    pub open spec fn well_formed(&self) -> bool {
        self.size >= 0 && self.secret@.len() == SECRET_SIZE
    }

    /// Whether the record is well formed.
    pub fn is_well_formed(&self) -> (r: bool)
        ensures
            r == self.well_formed(),
    {
        self.size >= 0 && self.secret.len() == SECRET_SIZE
    }
}

/// Why a metadata operation was refused.
#[derive(Clone, Copy, Debug, PartialEq, Eq, Structural)]
pub enum Error {
    /// A stored configuration value could not be read.
    ConfigSerde,
    /// The stored schema version is newer than any that is known.
    MigrationVersionInvalid(u32),
}

/// A key of the configuration table.
pub trait DbConfigKey {
    /// The number under which the value is stored.
    spec fn key(&self) -> u32;

    /// The number under which the value is stored.
    fn value(&self) -> (v: u32)
        ensures
            v == self.key(),
    ;
}

/// The key of the schema version.
#[derive(Debug)]
pub struct MigrationVersion;

impl DbConfigKey for MigrationVersion {
    open spec fn key(&self) -> u32 {
        1
    }

    fn value(&self) -> (v: u32) {
        1
    }
}

/// The newest schema version that is known.
pub const LATEST_VERSION: u32 = 1;

/// The number that a JSON text spells as an unsigned 32-bit integer, as
/// `serde_json` reads it; `None` where it reads none.
pub uninterp spec fn json_number(text: Seq<char>) -> Option<u32>;

/// `serde_json::from_str` for a `u32`.
#[verifier::external_body]
fn json_u32(text: &str) -> (r: Option<u32>)
    ensures
        r == json_number(text@),
{
    serde_json::from_str::<u32>(text).ok()
}

/// Reads the stored schema version: zero where no value is stored, the
/// number that the value spells otherwise.
pub fn stored_version(value: Option<&str>) -> (r: Result<u32, Error>)
    ensures
        match value {
            None => r == Ok::<u32, Error>(0),
            Some(text) => match json_number(text@) {
                Some(v) => r == Ok::<u32, Error>(v),
                None => r == Err::<u32, Error>(Error::ConfigSerde),
            },
        },
{
    match value {
        None => Ok(0),
        Some(text) => match json_u32(text) {
            Some(v) => Ok(v),
            None => Err(Error::ConfigSerde),
        },
    }
}

/// The migrations that lead from `version` to the newest version, in the
/// order in which they are applied.
pub open spec fn pending(version: u32) -> Seq<u32> {
    Seq::new((LATEST_VERSION - version) as nat, |i: int| (version + 1 + i) as u32)
}

/// Plans the migration of a schema at `version`: every later migration up to
/// the newest, in order. A version beyond the newest is refused.
pub fn migration_plan(version: u32) -> (r: Result<Vec<u32>, Error>)
    ensures
        r is Ok <==> version <= LATEST_VERSION,
        r is Ok ==> r->Ok_0@ == pending(version),
        r is Err ==> r->Err_0 == Error::MigrationVersionInvalid(version),
{
    if version > LATEST_VERSION {
        return Err(Error::MigrationVersionInvalid(version));
    }
    let mut plan: Vec<u32> = Vec::new();
    let mut next = version;
    while next < LATEST_VERSION
        invariant
            version <= next <= LATEST_VERSION,
            plan@.len() == next - version,
            forall|i: int| 0 <= i < plan@.len() ==> plan@[i] == version + 1 + i,
        decreases LATEST_VERSION - next,
    {
        next += 1;
        plan.push(next);
    }
    assert(plan@ =~= pending(version));
    Ok(plan)
}

/// The configuration value that records a schema version.
pub fn version_value(version: u32) -> (value: String)
    ensures
        value@ == decimal(version as nat),
{
    decimal_string(version as u64)
}

} // verus!
