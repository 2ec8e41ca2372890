//! Records exchanged with the directory service, and the decisions of its
//! client: where the service's API lives, and when a failed report is tried
//! again.
use crate::text::{chars_of, matches_at};
use vstd::prelude::*;

verus! {

/// A key that the directory service assigns to a local account. Its
/// `public_key` is re-parsed before use, never trusted as it stands.
#[derive(Debug, Clone)]
pub struct KeyAssignment {
    pub username: String,
    pub fingerprint: String,
    pub public_key: String,
    pub key_type: String,
    pub comment: Option<String>,
    pub use_primary_key: Option<bool>,
    pub assignment_id: String,
}

/// The API root under a service endpoint: `api` appended, with one `/`.
pub open spec fn base_url_of(endpoint: Seq<char>) -> Seq<char> {
    if endpoint.len() > 0 && endpoint.last() == '/' {
        endpoint + "api"@
    } else {
        endpoint + "/api"@
    }
}

/// Whether `p` occurs in `s`.
pub open spec fn contains_text(s: Seq<char>, p: Seq<char>) -> bool {
    exists|i: int| 0 <= i <= s.len() - p.len() && #[trigger] s.subrange(i, i + p.len()) == p
}

/// Whether an error message says that the agent is too old for the service,
/// which no retry mends.
pub open spec fn is_version_message(m: Seq<char>) -> bool {
    contains_text(m, "Agent version"@) && contains_text(m, "too old"@)
}

/// `2^n`, saturated at `u64::MAX`.
pub open spec fn backoff_secs(n: nat) -> u64
    decreases n,
{
    if n == 0 {
        1
    } else {
        let h = backoff_secs((n - 1) as nat);
        if h > u64::MAX / 2 {
            u64::MAX
        } else {
            (2 * h) as u64
        }
    }
}

/// The API root under a service endpoint.
pub fn api_base_url(endpoint: &str) -> (r: String)
    ensures
        r@ == base_url_of(endpoint@),
{
    let cs = chars_of(endpoint);
    let mut url = endpoint.to_owned();
    if cs.len() > 0 && cs[cs.len() - 1] == '/' {
        url.append("api");
    } else {
        url.append("/api");
    }
    proof {
        assert(cs@.last() == cs@[cs@.len() - 1]);
    }
    url
}

/// Whether `p` occurs in `s`.
pub fn contains(s: &str, p: &str) -> (r: bool)
    ensures
        r == contains_text(s@, p@),
{
    let cs = chars_of(s);
    let ps = chars_of(p);
    if ps.len() > cs.len() {
        return false;
    }
    let last = cs.len() - ps.len();
    let mut i: usize = 0;
    while i <= last
        invariant
            cs@ == s@,
            ps@ == p@,
            last == cs@.len() - ps@.len(),
            i <= last + 1,
            forall|k: int| 0 <= k < i ==> #[trigger] cs@.subrange(k, k + ps@.len()) != ps@,
        decreases last + 1 - i,
    {
        if matches_at(&cs, i, &ps) {
            return true;
        }
        if i == last {
            return false;
        }
        i = i + 1;
    }
    false
}

/// Whether an error message says that the agent is too old for the service.
pub fn is_version_error(message: &str) -> (r: bool)
    ensures
        r == is_version_message(message@),
{
    contains(message, "Agent version") && contains(message, "too old")
}

/// What to do after report attempt `attempt` (counted from 1) of
/// `max_retries` failed: `None` to give up, which comes after the last
/// attempt or on a version error; else the seconds to wait before the next
/// attempt, doubling from 1.
pub fn retry_delay(attempt: u32, max_retries: u32, version_error: bool) -> (r: Option<u64>)
    requires
        attempt >= 1,
    ensures
        r == if version_error || attempt >= max_retries {
            None
        } else {
            Some(backoff_secs((attempt - 1) as nat))
        },
{
    if version_error || attempt >= max_retries {
        return None;
    }
    let mut d: u64 = 1;
    let mut k: u32 = 1;
    while k < attempt
        invariant
            1 <= k <= attempt,
            d == backoff_secs((k - 1) as nat),
        decreases attempt - k,
    {
        d = if d > u64::MAX / 2 {
            u64::MAX
        } else {
            2 * d
        };
        k = k + 1;
    }
    Some(d)
}

} // verus!
