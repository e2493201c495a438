use relay::auth::to_hex;
use relay::config::Config;
use relay::proto::{ByeReason, ClientMsg, GraphPush, Heard, Listener, RosterPush, ServerMsg, YawPush, SLOTS};
use relay::roster::Push;
use relay::sha256::hmac_sha256;
use relay::signal::{mediate, ClientStep, Hub, HubError};
use relay::state::{Admission, AppState, SfuCommand};
use relay::build;

fn settings() -> Config {
    Config {
        domain: "vc.example.com".to_string(),
        hmac_secret: "s".to_string(),
        steam_api_key: None,
        udp_port: 40000,
        revoke_on_death: true,
        whitelist: vec![],
        acme_contact: None,
        acme_staging: false,
        acme_cache_dir: ".acme-cache".to_string(),
    }
}

fn roster(seq: u64, ids: &[&str]) -> Push {
    Push::Roster(RosterPush {
        server_id: "main".to_string(),
        seq,
        ts: 0,
        eligible: ids.iter().map(|s| s.to_string()).collect(),
    })
}

fn graph(seq: u64, listener: &str, speaker: &str) -> Push {
    Push::Graph(GraphPush {
        server_id: "main".to_string(),
        seq,
        ts: 0,
        listeners: vec![Listener {
            id: listener.to_string(),
            hears: vec![Heard { id: speaker.to_string(), d: 3, b: 90, sub: true }],
        }],
    })
}

fn sign(now: u64, body: &[u8]) -> String {
    let mut message = format!("{now}.").into_bytes();
    message.extend_from_slice(body);
    to_hex(&hmac_sha256(b"s", &message))
}

fn push(st: &mut AppState, push: Push, now: u64) -> (u16, Vec<String>) {
    let body = b"body";
    let r = st.receive(&now.to_string(), &sign(now, body), body, Some(push), now);
    (r.status, r.orders.iter().map(|o| format!("{o:?}")).collect())
}

fn drained(hub: &mut Hub) -> Vec<(u64, String, bool)> {
    hub.drain().into_iter().map(|d| (d.conn, format!("{:?}", d.msg), d.last)).collect()
}

fn log_in(st: &mut AppState, id: &str, byte: u8) -> String {
    let token = st.sessions.open(&[byte; 32], id.to_string()).unwrap();
    format!("pv_session={token}")
}

#[test]
fn relay_starts_empty() {
    let (mut st, sfu) = build(settings());
    assert_eq!(sfu.udp_port(), 40000);
    assert!(st.hub.drain().is_empty());
    assert_eq!(st.cfg.domain, "vc.example.com");
    assert!(!st.roster.is_eligible(&"main".to_string(), &"a".to_string()));
}

#[test]
fn signed_push_is_answered_204() {
    let (mut st, _) = build(settings());
    assert_eq!(push(&mut st, roster(1, &["a"]), 1000), (204, vec![]));
    assert_eq!(
        push(&mut st, graph(1, "a", "b"), 1001),
        (204, vec!["SetSubscriptions { listener: \"a\", speakers: [\"b\"] }".to_string()])
    );
}

#[test]
fn refused_push_is_answered_401_and_changes_nothing() {
    let (mut st, _) = build(settings());
    let body = b"body";
    let good = sign(1000, body);
    let forged = good.replace(&good[0..1], if &good[0..1] == "0" { "1" } else { "0" });
    let r = st.receive("1000", &forged, body, Some(roster(1, &["a"])), 1000);
    assert_eq!(r.status, 401);
    assert!(r.orders.is_empty());
    assert_eq!(st.receive("1000", &good, body, Some(roster(1, &["a"])), 1031).status, 401);
    assert_eq!(st.receive("1000", &good, body, None, 1000).status, 400);
    assert_eq!(st.receive("1000", &forged, body, None, 1000).status, 401);
    assert!(!st.roster.is_eligible(&"main".to_string(), &"a".to_string()));
    assert_eq!(st.receive("1000", &good, body, Some(roster(2, &["a"])), 1029).status, 204);
    assert!(st.roster.is_eligible(&"main".to_string(), &"a".to_string()));
    assert_eq!(push(&mut st, roster(2, &[]), 1030).0, 401);
    assert_eq!(push(&mut st, roster(1, &[]), 1030).0, 401);
    assert!(st.roster.is_eligible(&"main".to_string(), &"a".to_string()));
    assert_eq!(push(&mut st, roster(3, &[]), 1030).0, 204);
    assert!(!st.roster.is_eligible(&"main".to_string(), &"a".to_string()));
}

#[test]
fn browser_needs_a_session_and_a_place_on_the_roster() {
    let (mut st, _) = build(settings());
    assert!(matches!(st.connect("", 1000), Admission::Unauthorized));
    let cookie = log_in(&mut st, "a", 1);
    assert!(matches!(st.connect(&cookie, 1000), Admission::NotEligible));
    push(&mut st, roster(1, &["a"]), 1000);
    match st.connect(&cookie, 1000) {
        Admission::Connected { conn, steam_id, server_id, order } => {
            assert_eq!((conn, steam_id.as_str(), server_id.as_str()), (0, "a", "main"));
            assert!(order.is_none());
        }
        other => panic!("{other:?}"),
    }
    assert_eq!(drained(&mut st.hub), vec![(0, "Graph { hears: [] }".to_string(), false)]);
}

#[test]
fn browser_that_connects_late_is_told_what_is_known() {
    let (mut st, _) = build(settings());
    let cookie = log_in(&mut st, "a", 1);
    push(&mut st, roster(1, &["a", "b"]), 1000);
    push(&mut st, graph(1, "a", "b"), 1000);
    let yaw = YawPush {
        server_id: "main".to_string(),
        seq: 1,
        ts: 0,
        yaws: vec![("a".to_string(), 45)],
    };
    push(&mut st, Push::Yaw(yaw), 1000);
    assert!(st.hub.drain().is_empty());
    st.connect(&cookie, 1001);
    let told = drained(&mut st.hub);
    assert_eq!(told.len(), 2);
    assert_eq!(
        told[0].1,
        "Graph { hears: [Heard { id: \"b\", d: 3, b: 90, sub: true }] }"
    );
    assert_eq!(told[1].1, "Yaw { deg: 45 }");
}

#[test]
fn second_connection_of_a_player_wins() {
    let (mut st, _) = build(settings());
    let cookie = log_in(&mut st, "a", 1);
    push(&mut st, roster(1, &["a"]), 1000);
    st.connect(&cookie, 1000);
    st.hub.drain();
    st.connect(&cookie, 1001);
    let told = drained(&mut st.hub);
    assert_eq!(told[0], (0, "Bye { reason: DuplicateSession }".to_string(), true));
    assert_eq!(told[1].0, 1);
    st.hub.leave(0);
    assert_eq!(st.hub.connection(&"a".to_string()), Some(1));
    let a = "a".to_string();
    let main = "main".to_string();
    assert!(st.hear(0, &a, &main, ClientMsg::Hello { v: 1 }).is_none());
    assert!(st.hub.drain().is_empty());
    assert!(st.hear(1, &a, &main, ClientMsg::Hello { v: 1 }).is_none());
    assert_eq!(
        drained(&mut st.hub),
        vec![(1, "Ready { steam_id: \"a\", server_id: \"main\" }".to_string(), false)]
    );
}

#[test]
fn hub_speaks_only_to_the_connected() {
    let mut hub = Hub::default();
    let a = "a".to_string();
    assert_eq!(hub.send(&a, ServerMsg::Talk { on: true }), Err(HubError::NotConnected));
    assert_eq!(hub.register(a.clone()), Ok(0));
    assert_eq!(hub.send(&a, ServerMsg::Talk { on: true }), Ok(()));
    hub.close(&a, ByeReason::ServerShutdown);
    assert_eq!(
        drained(&mut hub),
        vec![
            (0, "Talk { on: true }".to_string(), false),
            (0, "Bye { reason: ServerShutdown }".to_string(), true),
        ]
    );
    assert_eq!(hub.connection(&a), None);
    hub.close(&a, ByeReason::ServerShutdown);
    assert!(hub.drain().is_empty());
    assert_eq!(hub.register(a.clone()), Ok(1));
}

#[test]
fn messages_of_a_browser_are_mediated() {
    let a = "a".to_string();
    let main = "main".to_string();
    let candidate = serde_json::Value::String("candidate:1".to_string());
    match mediate(&a, &main, ClientMsg::Ice { candidate }) {
        ClientStep::Order(SfuCommand::Ice { steam_id, candidate }) => {
            assert_eq!(steam_id, "a");
            assert_eq!(candidate, serde_json::Value::String("candidate:1".to_string()));
        }
        other => panic!("{other:?}"),
    }
    match mediate(&a, &main, ClientMsg::SdpOffer { sdp: "v=0".to_string() }) {
        ClientStep::Order(SfuCommand::AcceptOffer { steam_id, sdp }) => {
            assert_eq!((steam_id.as_str(), sdp.as_str()), ("a", "v=0"));
        }
        other => panic!("{other:?}"),
    }
}

fn offer() -> String {
    (0..SLOTS + 1).map(|i| format!("a=mid:{i}\r\n")).collect()
}

#[test]
fn voice_follows_the_graph_from_push_to_forwarding() {
    let (mut st, mut sfu) = build(settings());
    let cookie = log_in(&mut st, "a", 1);
    push(&mut st, roster(1, &["a", "b"]), 1000);
    let a = "a".to_string();
    let main = "main".to_string();
    st.connect(&cookie, 1000);
    st.hub.drain();
    let order = st.hear(0, &a, &main, ClientMsg::SdpOffer { sdp: offer() }).unwrap();
    let out = sfu.step(&order, Some("answer".to_string()));
    st.pass_on(&order, out);
    assert_eq!(
        drained(&mut st.hub),
        vec![(0, "SdpAnswer { sdp: \"answer\" }".to_string(), false)]
    );
    let body = b"graph";
    let r = st.receive("1001", &sign(1001, body), body, Some(graph(1, "a", "b")), 1001);
    assert_eq!(r.status, 204);
    for order in &r.orders {
        let out = sfu.step(order, None);
        st.pass_on(order, out);
    }
    let told = drained(&mut st.hub);
    assert!(told[0].1.starts_with("Graph"));
    assert_eq!(told[1].1, "Peer { mid: \"1\", id: Some(\"b\") }");
    assert_eq!(sfu.destinations(&"b".to_string()), vec![(a.clone(), "1".to_string())]);
    for order in &st.expire(1011) {
        let out = sfu.step(order, None);
        st.pass_on(order, out);
    }
    assert!(sfu.destinations(&"b".to_string()).is_empty());
    assert!(st.hub.drain().is_empty());
    assert_eq!(st.hub.connection(&a), Some(0));
}

#[test]
fn replaced_connection_loses_its_forwarding_session() {
    let (mut st, mut sfu) = build(settings());
    let cookie = log_in(&mut st, "a", 1);
    push(&mut st, roster(1, &["a", "b"]), 1000);
    st.connect(&cookie, 1000);
    let a = "a".to_string();
    let b = "b".to_string();
    for id in [&a, &b] {
        sfu.accept_offer(id, &offer(), Some("answer".to_string())).unwrap();
    }
    sfu.set_subscriptions(&a, &[b.clone()]).unwrap();
    sfu.set_subscriptions(&b, &[a.clone()]).unwrap();
    let order = match st.connect(&cookie, 1001) {
        Admission::Connected { conn: 1, order: Some(order), .. } => order,
        other => panic!("{other:?}"),
    };
    assert_eq!(format!("{order:?}"), "Supersede { steam_id: \"a\" }");
    let out = sfu.step(&order, None);
    assert!(out.bye.is_none());
    assert_eq!(out.tell.len(), 1);
    assert_eq!(out.tell[0].0, "b");
    st.pass_on(&order, out);
    assert!(sfu.destinations(&a).is_empty());
    assert!(sfu.destinations(&b).is_empty());
    assert_eq!(st.hub.connection(&a), Some(1));
}

#[test]
fn ended_session_is_told_why() {
    let (mut st, mut sfu) = build(settings());
    let cookie = log_in(&mut st, "a", 1);
    push(&mut st, roster(1, &["a"]), 1000);
    st.connect(&cookie, 1000);
    st.hub.drain();
    let end = SfuCommand::Disconnect {
        steam_id: "a".to_string(),
        reason: ByeReason::ServerShutdown,
    };
    let out = sfu.step(&end, None);
    st.pass_on(&end, out);
    assert_eq!(
        drained(&mut st.hub),
        vec![(0, "Bye { reason: ServerShutdown }".to_string(), true)]
    );
}

#[test]
fn roster_and_yaw_of_one_number_are_both_taken() {
    let (mut st, _) = build(settings());
    let yaw = YawPush { server_id: "main".to_string(), seq: 7, ts: 0, yaws: vec![] };
    assert_eq!(push(&mut st, Push::Yaw(yaw), 1000).0, 204);
    assert_eq!(push(&mut st, roster(7, &[]), 1000).0, 204);
}
