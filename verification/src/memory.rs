//! Long-term memory backends the agent can be configured with.
use vstd::prelude::*;

verus! {

/// The memory backends an agent can be configured with.
#[allow(non_camel_case_types)]
#[derive(Clone, Copy, Debug, PartialEq, Eq, Structural)]
pub enum memory_backend {
    pinecone,
    redis,
    local,
    none,
}

/// The backend names accepted in configuration, in order of preference.
pub fn get_supported_memory_backends() -> (r: Vec<String>)
    ensures
        r@.map_values(|s: String| s@) == seq!["local"@, "redis"@, "pinecone"@, "no_memory"@],
{
    let mut v: Vec<String> = Vec::new();
    v.push(String::from_str("local"));
    v.push(String::from_str("redis"));
    v.push(String::from_str("pinecone"));
    v.push(String::from_str("no_memory"));
    assert(v@.map_values(|s: String| s@) =~= seq!["local"@, "redis"@, "pinecone"@, "no_memory"@]);
    v
}

/// A backend that remembers nothing.
pub struct NoMemory {}

impl NoMemory {
    pub fn new() -> (r: NoMemory)
        ensures
            r == (NoMemory {}),
    {
        NoMemory {}
    }
}

/// A Redis-backed memory; it holds no connection state of its own.
pub struct RedisMemory {}

impl RedisMemory {
    pub fn new() -> (r: RedisMemory)
        ensures
            r == (RedisMemory {}),
    {
        RedisMemory {}
    }
}

} // verus!
