use relay::tls::{
    acme_goes_on, advance, after_accept, alpn_protocols, AcceptStep, AcmeEvent, Handshake, HandshakeEvent,
    HTTPS_PORT, WAITING_CONNECTIONS,
};

#[test]
fn protocols_prefer_http2() {
    assert_eq!(alpn_protocols(), vec![b"h2".to_vec(), b"http/1.1".to_vec()]);
    assert_eq!(HTTPS_PORT, 443);
    assert_eq!(WAITING_CONNECTIONS, 128);
}

#[test]
fn client_is_handed_over_after_its_handshake() {
    let at = advance(Handshake::Reading, HandshakeEvent::Hello { challenge: false });
    assert_eq!(at, Handshake::Serving);
    assert_eq!(advance(at, HandshakeEvent::Complete), Handshake::HandedOver);
    assert_eq!(advance(at, HandshakeEvent::Failed), Handshake::Closed);
}

#[test]
fn challenge_is_answered_and_closed() {
    let at = advance(Handshake::Reading, HandshakeEvent::Hello { challenge: true });
    assert_eq!(at, Handshake::Answering);
    assert_eq!(advance(at, HandshakeEvent::Complete), Handshake::Closed);
    assert_eq!(advance(at, HandshakeEvent::Failed), Handshake::Closed);
    assert_eq!(advance(Handshake::Closed, HandshakeEvent::Complete), Handshake::Closed);
}

#[test]
fn unreadable_hello_is_closed() {
    assert_eq!(advance(Handshake::Reading, HandshakeEvent::Failed), Handshake::Closed);
    assert_eq!(advance(Handshake::Reading, HandshakeEvent::Complete), Handshake::Closed);
}

#[test]
fn failed_accept_does_not_end_the_listener() {
    assert_eq!(after_accept(true), AcceptStep::Handshake);
    assert_eq!(after_accept(false), AcceptStep::Pause(50));
}

#[test]
fn failed_order_does_not_end_the_renewal() {
    assert!(acme_goes_on(AcmeEvent::Progress));
    assert!(acme_goes_on(AcmeEvent::Failure));
    assert!(!acme_goes_on(AcmeEvent::End));
}
