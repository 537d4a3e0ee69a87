//! The records of the service's client.
use vstd::prelude::*;
use std::time::Duration;

verus! {

/// Settings of a client.
pub struct ClientConfig {
    pub base_url: String,
    pub timeout: Duration,
    pub max_retries: u32,
    pub auth_token: Option<String>,
}

/// The answer to an insert.
pub struct InsertResult {
    pub id: String,
    pub index: String,
    pub timestamp: Option<String>,
}

/// The answer to a batch of inserts.
pub struct BatchResult {
    pub successful: usize,
    pub failed: usize,
    pub errors: Vec<String>,
}

/// An index to search.
#[derive(Debug, Clone, Copy, PartialEq, Eq, Structural)]
pub enum SearchIndex {
    Recent,
    Historical,
}

/// A change announced on the update stream.
#[derive(Debug)]
pub enum VectorUpdate {
    Inserted { id: String, index: String },
    Updated { id: String },
    Deleted { id: String },
    Migrated { id: String, from: String, to: String },
}

/// Errors of the client.
#[derive(Debug)]
pub enum ClientError {
    NetworkError(String),
    NotFound(String),
    ValidationError(String),
    ServerError(String),
    Timeout,
    AuthenticationFailed,
}


/// A vector sent to the service needs an identifier.
pub fn check_vector_id(id: &str) -> (r: Result<(), ClientError>)
    ensures
        id@.len() == 0 ==> (r matches Err(ClientError::ValidationError(m)) && m@ == "Vector ID cannot be empty"@),
        id@.len() > 0 ==> r is Ok,
{
    if id.unicode_len() == 0 {
        return Err(ClientError::ValidationError(String::from_str("Vector ID cannot be empty")));
    }
    Ok(())
}

/// Which tiers a search names: the recent one, the historical one.
pub fn index_flags(indices: &Vec<SearchIndex>) -> (r: (bool, bool))
    ensures
        r.0 == indices@.contains(SearchIndex::Recent),
        r.1 == indices@.contains(SearchIndex::Historical),
{
    let mut recent = false;
    let mut historical = false;
    let mut i: usize = 0;
    while i < indices.len()
        invariant
            i <= indices@.len(),
            recent == exists|j: int| 0 <= j < i && indices@[j] == SearchIndex::Recent,
            historical == exists|j: int| 0 <= j < i && indices@[j] == SearchIndex::Historical,
        decreases indices.len() - i,
    {
        match indices[i] {
            SearchIndex::Recent => {
                recent = true;
            },
            SearchIndex::Historical => {
                historical = true;
            },
        }
        i = i + 1;
    }
    proof {
        if recent {
            let j = choose|j: int| 0 <= j < i && indices@[j] == SearchIndex::Recent;
            assert(indices@.contains(SearchIndex::Recent));
        }
        if historical {
            let j = choose|j: int| 0 <= j < i && indices@[j] == SearchIndex::Historical;
            assert(indices@.contains(SearchIndex::Historical));
        }
    }
    (recent, historical)
}

/// The wait before the next attempt after `attempts` failed ones, in
/// milliseconds: a hundred per failed attempt.
pub fn retry_delay_ms(attempts: u32) -> (r: u64)
    ensures
        r == 100 * attempts,
{
    100 * (attempts as u64)
}

/// Whether a request is tried again after `attempts` failed ones: up to
/// `max_retries` retries follow the first attempt.
pub fn should_retry(attempts: u32, max_retries: u32) -> (r: bool)
    ensures
        r == (attempts <= max_retries),
{
    attempts <= max_retries
}

} // verus!
