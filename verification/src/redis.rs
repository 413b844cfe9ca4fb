//! Redis memory domains: where the agent's working, medium-term,
//! coordination and cache values live, each key namespaced by agent and
//! domain. Talking to the server is the application's.

use vstd::prelude::*;
use crate::text::{push_str, string_of};

verus! {

/// Where the Redis server is and whose keys these are.
#[derive(Debug)]
pub struct RedisConfig {
    pub url: String,
    pub agent_name: String,
}

impl Default for RedisConfig {
    fn default() -> (r: Self)
        ensures
            r.url@ == "redis://127.0.0.1:6379"@,
            r.agent_name@ == "default"@,
    {
        RedisConfig { url: "redis://127.0.0.1:6379".to_string(), agent_name: "default".to_string() }
    }
}

/// `river:{agent}:{domain}:{key}`.
pub open spec fn namespaced_spec(agent: Seq<char>, domain: Seq<char>, key: Seq<char>) -> Seq<char> {
    "river:"@ + agent + ":"@ + domain + ":"@ + key
}

/// The full key of `key` in `domain` for `agent`.
pub fn namespaced_key(agent: &str, domain: &str, key: &str) -> (r: String)
    ensures
        r@ == namespaced_spec(agent@, domain@, key@),
{
    let mut out: Vec<char> = Vec::new();
    push_str(&mut out, "river:");
    push_str(&mut out, agent);
    push_str(&mut out, ":");
    push_str(&mut out, domain);
    push_str(&mut out, ":");
    push_str(&mut out, key);
    proof {
        assert(out@ =~= namespaced_spec(agent@, domain@, key@));
    }
    string_of(&out)
}

/// The key of the coordination lock `key`: `lock:{key}` in the
/// coordination domain.
pub fn lock_key(agent: &str, key: &str) -> (r: String)
    ensures
        r@ == namespaced_spec(agent@, "coord"@, "lock:"@ + key@),
{
    let mut k: Vec<char> = Vec::new();
    push_str(&mut k, "lock:");
    push_str(&mut k, key);
    let ks = string_of(&k);
    namespaced_key(agent, "coord", ks.as_str())
}

/// The key of the counter `key`: `counter:{key}` in the coordination
/// domain.
pub fn counter_key(agent: &str, key: &str) -> (r: String)
    ensures
        r@ == namespaced_spec(agent@, "coord"@, "counter:"@ + key@),
{
    let mut k: Vec<char> = Vec::new();
    push_str(&mut k, "counter:");
    push_str(&mut k, key);
    let ks = string_of(&k);
    namespaced_key(agent, "coord", ks.as_str())
}

/// Distinct agents never share a key: the agent's name is part of it,
/// up to the separator.
pub proof fn law_agents_do_not_collide(a: Seq<char>, b: Seq<char>, domain: Seq<char>, key: Seq<char>)
    requires
        a != b,
        !a.contains(':'),
        !b.contains(':'),
    ensures
        namespaced_spec(a, domain, key) != namespaced_spec(b, domain, key),
{
    reveal_strlit("river:");
    reveal_strlit(":");
    let x = namespaced_spec(a, domain, key);
    let y = namespaced_spec(b, domain, key);
    if x == y {
        if a.len() < b.len() {
            assert(x[6 + a.len() as int] == ':');
            assert(y[6 + a.len() as int] == b[a.len() as int]);
            assert(b.contains(':'));
        } else if b.len() < a.len() {
            assert(y[6 + b.len() as int] == ':');
            assert(x[6 + b.len() as int] == a[b.len() as int]);
            assert(a.contains(':'));
        } else {
            assert forall|i: int| 0 <= i < a.len() implies a[i] == b[i] by {
                assert(x[6 + i] == a[i]);
                assert(y[6 + i] == b[i]);
            }
            assert(a =~= b);
        }
    }
}

} // verus!
