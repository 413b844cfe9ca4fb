//! Verified core of the river gateway: the parsers, indexes, policies and
//! formatters that decide what the agent's harness does. Reading and
//! writing files, talking to model servers and keeping time live in the
//! application around this library; everything here works on plain
//! values handed in and hands plain values back.

pub mod text;
pub mod frontmatter;
pub mod model;
pub mod paths;
pub mod record;
pub mod memory;
pub mod segment;
pub mod moments;
pub mod policy;
pub mod session;
pub mod spectator;
pub mod shape;
pub mod tools;
pub mod preferences;
pub mod queue;
pub mod embedding;
pub mod client;
pub mod search;
pub mod sweep;
pub mod watch;
pub mod graph;
pub mod redis;
pub mod subagent;
