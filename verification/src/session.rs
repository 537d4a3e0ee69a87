//! Settings of a per-user session of the database, as the JavaScript
//! bindings receive them.
use vstd::prelude::*;
use crate::text::{decimal, push_decimal};

verus! {

/// The platform the library runs on.
pub struct PlatformInfo {
    pub platform: String,
    pub arch: String,
}

/// Settings of a session.
pub struct VectorDBConfig {
    /// S5 portal URL.
    pub s5_portal: String,
    /// The user's seed phrase.
    pub user_seed_phrase: String,
    pub session_id: String,
    /// Memory budget in megabytes (512 unless set).
    pub memory_budget_mb: Option<u32>,
    /// Debug logging (off unless set).
    pub debug: Option<bool>,
}

/// How a session loads a user's vectors.
pub struct LoadOptions {
    /// Load HNSW at once and IVF on demand (on unless set).
    pub lazy_load: Option<bool>,
    /// Overrides the session's memory budget.
    pub memory_budget_mb: Option<u32>,
}

/// A session needs an identifier, a portal and a seed phrase; the error
/// names the first that is empty.
pub fn validate_session_config(config: &VectorDBConfig) -> (r: Result<(), String>)
    ensures
        config.session_id@.len() == 0 ==> (r matches Err(m) && m@ == "session_id is required"@),
        config.session_id@.len() > 0 && config.s5_portal@.len() == 0 ==> (r matches Err(m) && m@ == "s5_portal is required"@),
        config.session_id@.len() > 0 && config.s5_portal@.len() > 0 && config.user_seed_phrase@.len() == 0
            ==> (r matches Err(m) && m@ == "user_seed_phrase is required"@),
        config.session_id@.len() > 0 && config.s5_portal@.len() > 0 && config.user_seed_phrase@.len() > 0 ==> r is Ok,
{
    if config.session_id.as_str().unicode_len() == 0 {
        return Err(String::from_str("session_id is required"));
    }
    if config.s5_portal.as_str().unicode_len() == 0 {
        return Err(String::from_str("s5_portal is required"));
    }
    if config.user_seed_phrase.as_str().unicode_len() == 0 {
        return Err(String::from_str("user_seed_phrase is required"));
    }
    Ok(())
}

/// The message of a vector whose length differs from the session's
/// dimension.
pub open spec fn dimension_mismatch_message(expected: nat, got: nat) -> Seq<char> {
    "Vector dimension mismatch: expected "@ + decimal(expected) + ", got "@ + decimal(got)
}

fn mismatch(expected: usize, got: usize) -> (r: String)
    ensures
        r@ == dimension_mismatch_message(expected as nat, got as nat),
{
    let mut m = String::from_str("Vector dimension mismatch: expected ");
    push_decimal(&mut m, expected);
    m.append(", got ");
    push_decimal(&mut m, got);
    m
}

/// The session's dimension after a batch is accepted: an empty batch
/// (`first_len` is none) leaves it; otherwise the first vector's length
/// becomes it when the session has none, and must equal it when it has one.
pub fn batch_dimension(current: Option<usize>, first_len: Option<usize>) -> (r: Result<Option<usize>, String>)
    ensures
        first_len is None ==> (r matches Ok(d) && d == current),
        first_len is Some && current is None ==> (r matches Ok(d) && d == first_len),
        first_len is Some && current is Some && first_len == current ==> (r matches Ok(d) && d == current),
        first_len is Some && current is Some && first_len != current ==> (r matches Err(m)
            && m@ == dimension_mismatch_message(current.unwrap() as nat, first_len.unwrap() as nat)),
{
    match first_len {
        None => Ok(current),
        Some(f) => match current {
            None => Ok(Some(f)),
            Some(e) => {
                if f != e {
                    Err(mismatch(e, f))
                } else {
                    Ok(current)
                }
            },
        },
    }
}

/// Each vector of a batch must have the session's dimension, where it has
/// one.
pub fn check_vector_dimension(expected: Option<usize>, len: usize) -> (r: Result<(), String>)
    ensures
        expected is Some && expected.unwrap() != len ==> (r matches Err(m)
            && m@ == dimension_mismatch_message(expected.unwrap() as nat, len as nat)),
        !(expected is Some && expected.unwrap() != len) ==> r is Ok,
{
    match expected {
        Some(e) => {
            if e != len {
                return Err(mismatch(e, len));
            }
            Ok(())
        },
        None => Ok(()),
    }
}

/// How many vectors of a session's first batch train its index: the first
/// ten, or all of a smaller batch.
pub fn training_sample_size(batch_len: usize) -> (r: usize)
    ensures
        r == if batch_len < 10 { batch_len } else { 10 },
{
    if batch_len < 10 { batch_len } else { 10 }
}

} // verus!
