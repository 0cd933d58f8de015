//! The parsed shape of a simple key-value request: a method name with an
//! optional key, value and ttl. The connection layer parses request text
//! into this form before acting on it.

use vstd::prelude::*;

verus! {

/// One parsed key-value request.
pub struct Request {
    pub method: String,
    pub key: Option<String>,
    pub value: Option<String>,
    pub ttl: Option<u64>,
}

impl Request {
    /// A request with the given method and no key, value or ttl.
    pub fn new(method: String) -> (r: Request)
        ensures
            r.method@ == method@,
            r.key is None,
            r.value is None,
            r.ttl is None,
    {
        Request { method, key: None, value: None, ttl: None }
    }
}

} // verus!
