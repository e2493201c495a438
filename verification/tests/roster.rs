use relay::config::Config;
use relay::proto::{GraphPush, Heard, Listener, RosterPush, TalkPush, YawPush, ROSTER_TTL_S};
use relay::roster::{Effect, Push, PushError, Roster};

fn settings(revoke: bool, whitelist: &[&str]) -> Config {
    Config {
        domain: "vc.example.com".to_string(),
        hmac_secret: "s".to_string(),
        steam_api_key: None,
        udp_port: 40000,
        revoke_on_death: revoke,
        whitelist: names(whitelist),
        acme_contact: None,
        acme_staging: false,
        acme_cache_dir: ".acme-cache".to_string(),
    }
}

fn names(ids: &[&str]) -> Vec<String> {
    ids.iter().map(|s| s.to_string()).collect()
}

fn roster(server: &str, seq: u64, ids: &[&str]) -> RosterPush {
    RosterPush { server_id: server.to_string(), seq, ts: 0, eligible: names(ids) }
}

fn heard(id: &str, d: u16, sub: bool) -> Heard {
    Heard { id: id.to_string(), d, b: 0, sub }
}

fn graph(server: &str, seq: u64, listeners: Vec<(&str, Vec<Heard>)>) -> GraphPush {
    GraphPush {
        server_id: server.to_string(),
        seq,
        ts: 0,
        listeners: listeners
            .into_iter()
            .map(|(id, hears)| Listener { id: id.to_string(), hears })
            .collect(),
    }
}

fn shown(effects: &[Effect]) -> Vec<String> {
    effects.iter().map(|e| format!("{e:?}")).collect()
}

fn heard_ids(hears: &[Heard]) -> Vec<String> {
    hears.iter().map(|h| h.id.clone()).collect()
}

const SUB_A_BC: &str =
    "Order(SetSubscriptions { listener: \"a\", speakers: [\"b\", \"c\"] })";
const MUTE_A: &str = "Order(MuteAll { listener: \"a\" })";

#[test]
fn only_those_on_the_roster_are_eligible() {
    let mut r = Roster::new(&settings(true, &[]));
    assert!(!r.is_eligible(&"main".to_string(), &"a".to_string()));
    r.apply_roster(roster("main", 1, &["a", "b"]), 100).unwrap();
    assert!(r.is_eligible(&"main".to_string(), &"a".to_string()));
    assert!(!r.is_eligible(&"main".to_string(), &"c".to_string()));
    assert!(!r.is_eligible(&"other".to_string(), &"a".to_string()));
    r.apply_roster(roster("main", 2, &["c"]), 102).unwrap();
    assert!(!r.is_eligible(&"main".to_string(), &"a".to_string()));
    assert!(r.is_eligible(&"main".to_string(), &"c".to_string()));
}

#[test]
fn whitelist_restricts_the_roster() {
    let mut r = Roster::new(&settings(true, &["b", "z"]));
    r.apply_roster(roster("main", 1, &["a", "b"]), 100).unwrap();
    assert!(!r.is_eligible(&"main".to_string(), &"a".to_string()));
    assert!(r.is_eligible(&"main".to_string(), &"b".to_string()));
    assert!(!r.is_eligible(&"main".to_string(), &"z".to_string()));
    assert_eq!(r.server_of(&"b".to_string()), Some("main".to_string()));
    assert_eq!(r.server_of(&"a".to_string()), None);
}

#[test]
fn number_must_grow() {
    let mut r = Roster::new(&settings(true, &[]));
    r.apply_roster(roster("main", 5, &["a"]), 100).unwrap();
    assert!(matches!(r.apply_roster(roster("main", 5, &[]), 101), Err(PushError::StaleSeq)));
    assert!(matches!(r.apply_roster(roster("main", 4, &[]), 101), Err(PushError::StaleSeq)));
    assert!(r.is_eligible(&"main".to_string(), &"a".to_string()));
    assert!(r.apply_roster(roster("main", 6, &[]), 101).is_ok());
    assert!(r.apply_roster(roster("other", 1, &["a"]), 101).is_ok());
}

#[test]
fn kinds_are_numbered_apart() {
    let mut r = Roster::new(&settings(true, &[]));
    let yaw = |seq: u64| YawPush { server_id: "main".to_string(), seq, ts: 0, yaws: vec![] };
    let talk = |seq: u64| TalkPush {
        server_id: "main".to_string(),
        seq,
        ts: 0,
        id: "a".to_string(),
        talking: true,
    };
    assert!(r.apply_yaw(yaw(900)).is_ok());
    assert!(r.apply(Push::Roster(roster("main", 3, &["a"])), 100).is_ok());
    assert!(r.apply(Push::Graph(graph("main", 2, vec![])), 100).is_ok());
    assert!(r.apply(Push::Talk(talk(1)), 100).is_ok());
    assert!(matches!(r.apply(Push::Talk(talk(1)), 100), Err(PushError::StaleSeq)));
    assert!(matches!(r.apply(Push::Yaw(yaw(900)), 100), Err(PushError::StaleSeq)));
    assert!(matches!(
        r.apply(Push::Graph(graph("main", 1, vec![])), 100),
        Err(PushError::StaleSeq)
    ));
}

#[test]
fn graph_is_told_and_forwarded_nearest_first() {
    let mut r = Roster::new(&settings(true, &[]));
    r.apply_roster(roster("main", 1, &["a", "b", "c"]), 100).unwrap();
    let hears = vec![heard("c", 20, true), heard("d", 70, false), heard("b", 5, true)];
    let effects = r.apply_graph(graph("main", 1, vec![("a", hears)]), 101).unwrap();
    let told = shown(&effects);
    assert_eq!(told.len(), 2);
    assert!(told[0].starts_with("Tell(\"a\", Graph"), "{}", told[0]);
    assert_eq!(told[1], SUB_A_BC);
    assert_eq!(heard_ids(&r.hears_of(&"a".to_string(), 101)), names(&["c", "d", "b"]));
    assert!(r.hears_of(&"b".to_string(), 101).is_empty());
}

#[test]
fn equal_distances_keep_their_order() {
    let mut r = Roster::new(&settings(false, &[]));
    r.apply_roster(roster("main", 1, &["a"]), 100).unwrap();
    let hears = vec![heard("b", 9, true), heard("c", 9, true), heard("d", 8, true)];
    let effects = r.apply_graph(graph("main", 1, vec![("a", hears)]), 100).unwrap();
    assert_eq!(
        shown(&effects)[1],
        "Order(SetSubscriptions { listener: \"a\", speakers: [\"d\", \"b\", \"c\"] })"
    );
}

#[test]
fn who_is_not_in_the_graph_any_more_hears_nobody() {
    let mut r = Roster::new(&settings(true, &[]));
    r.apply_roster(roster("main", 1, &["a", "b"]), 100).unwrap();
    r.apply_graph(graph("main", 1, vec![("a", vec![heard("b", 1, true)])]), 100).unwrap();
    let effects = r.apply_graph(graph("main", 2, vec![]), 101).unwrap();
    assert_eq!(
        shown(&effects),
        vec![
            "Tell(\"a\", Graph { hears: [] })".to_string(),
            MUTE_A.to_string(),
        ]
    );
}

#[test]
fn roster_that_is_too_old_silences_its_players() {
    let mut r = Roster::new(&settings(true, &[]));
    r.apply_roster(roster("main", 1, &["a"]), 100).unwrap();
    r.apply_graph(graph("main", 1, vec![("a", vec![heard("b", 1, true)])]), 100).unwrap();
    let last = 100 + ROSTER_TTL_S;
    assert!(r.expire(last).is_empty());
    assert_eq!(r.hears_of(&"a".to_string(), last).len(), 1);
    assert!(r.hears_of(&"a".to_string(), last + 1).is_empty());
    assert_eq!(shown(&r.expire(last + 1)), vec![MUTE_A, MUTE_A]);
    let late = r.apply_graph(graph("main", 2, vec![("a", vec![heard("b", 1, true)])]), last + 1);
    assert!(late.unwrap().is_empty());
    assert!(r.is_eligible(&"main".to_string(), &"a".to_string()));
    let back = r.apply_roster(roster("main", 2, &["a"]), last + 2).unwrap();
    assert_eq!(
        shown(&back),
        vec!["Order(SetSubscriptions { listener: \"a\", speakers: [\"b\"] })"]
    );
}

#[test]
fn the_dead_stop_hearing_and_hear_again() {
    let mut r = Roster::new(&settings(true, &[]));
    r.apply_roster(roster("main", 1, &["a", "b", "c"]), 100).unwrap();
    let hears = vec![heard("b", 5, true), heard("c", 20, true)];
    r.apply_graph(graph("main", 1, vec![("a", hears)]), 100).unwrap();
    let death = r.apply_roster(roster("main", 2, &["b", "c"]), 101).unwrap();
    assert_eq!(shown(&death), vec![MUTE_A]);
    assert!(r.hears_of(&"a".to_string(), 101).is_empty());
    let respawn = r.apply_roster(roster("main", 3, &["a", "b", "c"]), 102).unwrap();
    assert_eq!(shown(&respawn), vec![SUB_A_BC]);
}

#[test]
fn the_dead_go_on_hearing_where_settings_say_so() {
    let mut r = Roster::new(&settings(false, &[]));
    r.apply_roster(roster("main", 1, &["a", "b", "c"]), 100).unwrap();
    let hears = vec![heard("b", 5, true), heard("c", 20, true)];
    r.apply_graph(graph("main", 1, vec![("a", hears)]), 100).unwrap();
    let death = r.apply_roster(roster("main", 2, &["b", "c"]), 101).unwrap();
    assert_eq!(shown(&death), vec![SUB_A_BC]);
    assert_eq!(r.hears_of(&"a".to_string(), 101).len(), 2);
}

fn heard_by_two_servers() -> Roster {
    let mut r = Roster::new(&settings(true, &[]));
    r.apply_roster(roster("main", 1, &["a"]), 0).unwrap();
    r.apply_roster(roster("other", 1, &["a"]), 5).unwrap();
    r.apply_graph(graph("main", 1, vec![("a", vec![heard("p", 1, true)])]), 9).unwrap();
    r.apply_graph(graph("other", 1, vec![("a", vec![heard("q", 2, true)])]), 9).unwrap();
    r
}

const SUB_A_Q: &str = "Order(SetSubscriptions { listener: \"a\", speakers: [\"q\"] })";

#[test]
fn expiry_stops_what_one_server_forwarded_where_another_goes_on() {
    let r = heard_by_two_servers();
    assert_eq!(heard_ids(&r.hears_of(&"a".to_string(), 9)), names(&["p"]));
    assert!(r.expire(10).is_empty());
    assert_eq!(shown(&r.expire(11)), vec![SUB_A_Q, SUB_A_Q]);
    assert_eq!(heard_ids(&r.hears_of(&"a".to_string(), 11)), names(&["q"]));
    assert_eq!(shown(&r.expire(16)), vec![MUTE_A; 4]);
}

#[test]
fn death_on_one_server_leaves_the_voices_of_another() {
    let mut r = heard_by_two_servers();
    let death = r.apply_roster(roster("main", 2, &[]), 10).unwrap();
    assert_eq!(shown(&death), vec![SUB_A_Q]);
}

#[test]
fn leaving_one_graph_leaves_the_voices_of_another() {
    let mut r = heard_by_two_servers();
    let news = shown(&r.apply_graph(graph("main", 2, vec![]), 10).unwrap());
    assert_eq!(
        news,
        vec![
            "Tell(\"a\", Graph { hears: [Heard { id: \"q\", d: 2, b: 0, sub: true }] })",
            SUB_A_Q,
        ]
    );
}

#[test]
fn orientation_is_told_and_kept() {
    let mut r = Roster::new(&settings(true, &[]));
    r.apply_roster(roster("main", 1, &["a"]), 100).unwrap();
    let push = YawPush {
        server_id: "main".to_string(),
        seq: 1,
        ts: 0,
        yaws: vec![("a".to_string(), 355), ("b".to_string(), 0)],
    };
    let effects = r.apply_yaw(push).unwrap();
    assert_eq!(shown(&effects), vec!["Tell(\"a\", Yaw { deg: 355 })", "Tell(\"b\", Yaw { deg: 0 })"]);
    assert_eq!(r.yaw_of(&"a".to_string(), 100), Some(355));
    assert_eq!(r.yaw_of(&"c".to_string(), 100), None);
    assert_eq!(r.yaw_of(&"a".to_string(), 111), None);
}

#[test]
fn talk_is_told_to_the_talker() {
    let mut r = Roster::new(&settings(true, &[]));
    let push = TalkPush {
        server_id: "main".to_string(),
        seq: 1,
        ts: 0,
        id: "a".to_string(),
        talking: true,
    };
    assert_eq!(shown(&r.apply_talk(push).unwrap()), vec!["Tell(\"a\", Talk { on: true })"]);
}
