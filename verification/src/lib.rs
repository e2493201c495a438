//! Relay of a proximity voice chat: who may connect, who may hear whom, and
//! which forwarding slot carries whose voice.
//!
//! Every module holds decisions only. Sockets, clocks, random numbers and the
//! JSON framing belong to the program around the library, which hands in plain
//! values and performs the effects that come back.
pub mod audibility;
pub mod auth;
pub mod config;
pub mod digest;
pub mod forwarding;
pub mod hearing;
pub mod openid;
pub mod proto;
pub mod roster;
pub mod sdp;
pub mod sfu;
pub mod sha256;
pub mod signal;
pub mod slots;
pub mod state;
pub mod text;
pub mod tls;

use crate::config::Config;
use crate::sfu::{Sfu, SfuView};
use crate::signal::HubView;
use crate::state::AppState;
use vstd::prelude::*;

verus! {

/// How many orders may wait for the forwarding loop.
pub const WAITING_ORDERS: usize = 256;

/// Puts a relay together by its settings: what its parts share, and the
/// forwarding table, which belongs to the loop alone.
pub fn build(cfg: Config) -> (r: (AppState, Sfu))
    ensures
        r.0.wf(),
        r.0.hub@ == (HubView { next: 0, live: Map::empty(), queue: seq![] }),
        r.0.roster@.servers.len() == 0,
        r.0.roster@.whitelist == cfg@.whitelist,
        r.0.roster@.revoke_on_death == cfg@.revoke_on_death,
        r.0.sessions@ == Map::<Seq<char>, Seq<char>>::empty(),
        r.0.cfg == cfg,
        r.1.wf(),
        r.1@ == (SfuView { udp_port: cfg@.udp_port, sessions: seq![] }),
{
    let sfu = Sfu::new(cfg.udp_port);
    (AppState::new(cfg), sfu)
}

} // verus!
