//! How TLS is terminated: what the certificate authority is asked for, and
//! which connections reach the HTTP server.
use crate::config::{contacts, Config};
use vstd::prelude::*;

verus! {

/// The port of the listener. The authority validates at this port only, so it
/// is not a setting.
pub const HTTPS_PORT: u16 = 443;

/// How many connections may wait between the handshake and the HTTP server.
pub const WAITING_CONNECTIONS: usize = 128;

/// How long the listener rests after it failed to accept a connection.
pub const ACCEPT_PAUSE_MS: u64 = 50;

/// What the certificate authority is asked for.
#[derive(Debug, Clone)]
pub struct AcmePlan {
    pub domains: Vec<String>,
    pub contacts: Vec<String>,
    pub cache_dir: String,
    /// Whether the certificates are to be valid ones.
    pub production: bool,
}

/// The plan that the settings ask for.
pub fn acme_plan(cfg: &Config) -> (r: AcmePlan)
    ensures
        r.domains.deep_view() == seq![cfg@.domain],
        r.contacts.deep_view() == contacts(cfg@.acme_contact),
        r.cache_dir@ == cfg@.acme_cache_dir,
        r.production == !cfg@.acme_staging,
{
    let mut domains: Vec<String> = Vec::new();
    domains.push(cfg.domain.clone());
    assert(domains.deep_view() =~= seq![cfg@.domain]);
    AcmePlan {
        domains,
        contacts: cfg.acme_contacts(),
        cache_dir: cfg.acme_cache_dir.clone(),
        production: !cfg.acme_staging,
    }
}

/// The protocols that are offered to clients, the preferred one first.
pub fn alpn_protocols() -> (r: Vec<Vec<u8>>)
    ensures
        r.deep_view() == seq![
            vstd::utf8::encode_utf8("h2"@),
            vstd::utf8::encode_utf8("http/1.1"@),
        ],
{
    let mut out: Vec<Vec<u8>> = Vec::new();
    let h2: Vec<u8> = vstd::string::StrSliceExecFns::as_bytes_vec("h2");
    let http1: Vec<u8> = vstd::string::StrSliceExecFns::as_bytes_vec("http/1.1");
    assert(h2.deep_view() =~= h2@);
    assert(http1.deep_view() =~= http1@);
    out.push(h2);
    out.push(http1);
    assert(out.deep_view() =~= seq![
        vstd::utf8::encode_utf8("h2"@),
        vstd::utf8::encode_utf8("http/1.1"@),
    ]);
    out
}

/// What the task that keeps the certificate up to date has to report.
#[derive(Debug, Clone, Copy, PartialEq, Eq, Structural)]
pub enum AcmeEvent {
    Progress,
    Failure,
    End,
}

/// Whether that task goes on: a failure does not stop it.
pub fn acme_goes_on(event: AcmeEvent) -> (r: bool)
    ensures
        r == (event != AcmeEvent::End),
{
    match event {
        AcmeEvent::Progress | AcmeEvent::Failure => true,
        AcmeEvent::End => false,
    }
}

/// What the listener does once it has tried to accept a connection. Nothing
/// ends it.
#[derive(Debug, Clone, Copy, PartialEq, Eq, Structural)]
pub enum AcceptStep {
    /// Shake hands beside the listener, which accepts the next one meanwhile.
    Handshake,
    /// Rest for so many milliseconds and try again.
    Pause(u64),
}

/// What the listener does once it has tried to accept a connection.
pub fn after_accept(accepted: bool) -> (r: AcceptStep)
    ensures
        r == (if accepted {
            AcceptStep::Handshake
        } else {
            AcceptStep::Pause(ACCEPT_PAUSE_MS)
        }),
{
    if accepted {
        AcceptStep::Handshake
    } else {
        AcceptStep::Pause(ACCEPT_PAUSE_MS)
    }
}

/// How far a connection has come.
#[derive(Debug, Clone, Copy, PartialEq, Eq, Structural)]
pub enum Handshake {
    /// The client's first message is being read.
    Reading,
    /// The authority asks: it is answered with the challenge certificate.
    Answering,
    /// A client is shaken hands with, with the certificate of the domain.
    Serving,
    /// The connection goes to the HTTP server, with the address of its peer.
    HandedOver,
    /// The connection is closed.
    Closed,
}

/// What happens to a connection.
#[derive(Debug, Clone, Copy, PartialEq, Eq, Structural)]
pub enum HandshakeEvent {
    /// The client's first message came; it may be a challenge of the authority.
    Hello { challenge: bool },
    /// The handshake is complete.
    Complete,
    /// What was under way failed.
    Failed,
}

/// How far a connection comes by what happens to it.
pub open spec fn advanced(at: Handshake, event: HandshakeEvent) -> Handshake {
    match (at, event) {
        (Handshake::Reading, HandshakeEvent::Hello { challenge }) => if challenge {
            Handshake::Answering
        } else {
            Handshake::Serving
        },
        (Handshake::Serving, HandshakeEvent::Complete) => Handshake::HandedOver,
        (Handshake::HandedOver, _) => Handshake::HandedOver,
        _ => Handshake::Closed,
    }
}

/// How far a connection comes by what happens to it.
pub fn advance(at: Handshake, event: HandshakeEvent) -> (r: Handshake)
    ensures
        r == advanced(at, event),
{
    match at {
        Handshake::Reading => match event {
            HandshakeEvent::Hello { challenge } => if challenge {
                Handshake::Answering
            } else {
                Handshake::Serving
            },
            _ => Handshake::Closed,
        },
        Handshake::Serving => match event {
            HandshakeEvent::Complete => Handshake::HandedOver,
            _ => Handshake::Closed,
        },
        Handshake::HandedOver => Handshake::HandedOver,
        Handshake::Answering | Handshake::Closed => Handshake::Closed,
    }
}

/// How far a connection comes by all that happens to it.
pub open spec fn after(events: Seq<HandshakeEvent>) -> Handshake
    decreases events.len(),
{
    if events.len() == 0 {
        Handshake::Reading
    } else {
        advanced(after(events.drop_last()), events.last())
    }
}

/// The HTTP server gets the connections of clients that have shaken hands, and
/// no other ones. A connection is answered or served after its first message
/// and at no other time.
pub proof fn only_complete_handshakes_are_handed_over(events: Seq<HandshakeEvent>)
    ensures
        after(events) == Handshake::HandedOver <==> events.len() >= 2 && events[0]
            == (HandshakeEvent::Hello { challenge: false }) && events[1]
            == HandshakeEvent::Complete,
        after(events) == Handshake::Serving <==> events == seq![
            HandshakeEvent::Hello { challenge: false },
        ],
        after(events) == Handshake::Answering <==> events == seq![
            HandshakeEvent::Hello { challenge: true },
        ],
        after(events) == Handshake::Reading <==> events.len() == 0,
    decreases events.len(),
{
    if events.len() > 0 {
        let init = events.drop_last();
        only_complete_handshakes_are_handed_over(init);
        if events.len() == 1 {
            assert(events =~= seq![events[0]]);
        } else {
            assert(init[0] == events[0]);
            if init.len() >= 2 {
                assert(init[1] == events[1]);
            } else {
                assert(init =~= seq![events[0]]);
            }
        }
    }
}

/// A connection by which the authority validates never reaches the HTTP
/// server, whatever happens to it later.
pub proof fn challenges_are_never_handed_over(events: Seq<HandshakeEvent>)
    requires
        events.len() > 0,
        events[0] == (HandshakeEvent::Hello { challenge: true }),
    ensures
        after(events) != Handshake::HandedOver,
        after(events) != Handshake::Serving,
{
    only_complete_handshakes_are_handed_over(events);
}

} // verus!
