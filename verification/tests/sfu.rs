use relay::proto::{ByeReason, ServerMsg, SLOTS};
use relay::sdp::media_names;
use relay::sfu::{Reply, Sfu, SfuError};
use relay::state::SfuCommand;

fn offer(n: usize) -> String {
    let mut sdp = String::from("v=0\r\n");
    for i in 0..n {
        sdp.push_str(&format!("m=audio 9 UDP/TLS/RTP/SAVPF 111\r\na=mid:{i}\r\n"));
    }
    sdp
}

fn names(ids: &[&str]) -> Vec<String> {
    ids.iter().map(|s| s.to_string()).collect()
}

fn shown(msgs: &[ServerMsg]) -> Vec<String> {
    msgs.iter().map(|m| format!("{m:?}")).collect()
}

fn with_session(id: &str) -> Sfu {
    let mut sfu = Sfu::new(40000);
    join(&mut sfu, id);
    sfu
}

fn join(sfu: &mut Sfu, id: &str) {
    let answer = sfu.accept_offer(&id.to_string(), &offer(SLOTS + 1), Some("answer".to_string()));
    assert_eq!(answer, Ok("answer".to_string()));
}

fn peer(mid: usize, id: &str) -> String {
    format!("Peer {{ mid: \"{mid}\", id: Some(\"{id}\") }}")
}

fn freed(mid: usize) -> String {
    format!("Peer {{ mid: \"{mid}\", id: None }}")
}

#[test]
fn media_names_are_read_in_order() {
    assert_eq!(media_names("a=mid:0\r\nx\r\na=mid:audio1\n a=mid:no\na=mid:"), names(&["0", "audio1", ""]));
    assert!(media_names("").is_empty());
    assert_eq!(media_names(&offer(17)).len(), 17);
}

#[test]
fn offer_needs_a_microphone_and_all_slots() {
    let mut sfu = Sfu::new(40000);
    assert_eq!(sfu.udp_port(), 40000);
    let a = "a".to_string();
    let answer = || Some("answer".to_string());
    assert_eq!(sfu.accept_offer(&a, &offer(SLOTS), answer()), Err(SfuError::BadOffer));
    assert_eq!(sfu.accept_offer(&a, &offer(SLOTS + 2), answer()), Err(SfuError::BadOffer));
    let twice = format!("{}a=mid:0\r\n", offer(SLOTS));
    assert_eq!(sfu.accept_offer(&a, &twice, answer()), Err(SfuError::BadOffer));
    assert_eq!(sfu.accept_offer(&a, &offer(SLOTS + 1), None), Err(SfuError::NoAnswer));
    assert_eq!(sfu.mute_all(&a), Err(SfuError::UnknownSession));
    assert_eq!(sfu.accept_offer(&a, &offer(SLOTS + 1), answer()), Ok("answer".to_string()));
    assert_eq!(sfu.mute_all(&a), Ok(()));
}

#[test]
fn speakers_get_slots_and_keep_them() {
    let mut sfu = with_session("l");
    let l = "l".to_string();
    assert_eq!(
        shown(&sfu.set_subscriptions(&l, &names(&["a", "b"])).unwrap()),
        vec![peer(1, "a"), peer(2, "b")]
    );
    assert!(sfu.set_subscriptions(&l, &names(&["b", "a"])).unwrap().is_empty());
    assert_eq!(
        shown(&sfu.set_subscriptions(&l, &names(&["c", "b"])).unwrap()),
        vec![peer(1, "c")]
    );
    assert_eq!(shown(&sfu.set_subscriptions(&l, &[].to_vec()).unwrap()), vec![freed(1), freed(2)]);
}

#[test]
fn only_the_nearest_sixteen_are_forwarded() {
    let mut sfu = with_session("l");
    let l = "l".to_string();
    let many: Vec<String> = (0..20).map(|i| format!("s{i}")).collect();
    assert_eq!(sfu.set_subscriptions(&l, &many).unwrap().len(), SLOTS);
    assert_eq!(
        sfu.destinations(&"s15".to_string()),
        vec![("l".to_string(), "16".to_string())]
    );
    assert!(sfu.destinations(&"s16".to_string()).is_empty());
}

#[test]
fn who_is_dropped_is_not_forwarded() {
    let mut sfu = with_session("l");
    let l = "l".to_string();
    sfu.set_subscriptions(&l, &names(&["a", "b"])).unwrap();
    sfu.set_subscriptions(&l, &names(&["b"])).unwrap();
    assert!(sfu.destinations(&"a".to_string()).is_empty());
    assert_eq!(sfu.destinations(&"b".to_string()), vec![("l".to_string(), "2".to_string())]);
}

#[test]
fn muting_stops_forwarding_and_is_undone() {
    let mut sfu = with_session("l");
    let l = "l".to_string();
    sfu.set_subscriptions(&l, &names(&["a"])).unwrap();
    sfu.mute_all(&l).unwrap();
    assert!(sfu.destinations(&"a".to_string()).is_empty());
    assert!(sfu.set_subscriptions(&l, &names(&["a"])).unwrap().is_empty());
    assert_eq!(sfu.destinations(&"a".to_string()), vec![("l".to_string(), "1".to_string())]);
}

#[test]
fn leaving_frees_the_slots_of_others() {
    let mut sfu = with_session("l");
    join(&mut sfu, "a");
    let l = "l".to_string();
    sfu.set_subscriptions(&l, &names(&["a"])).unwrap();
    let told = sfu.disconnect(&"a".to_string());
    assert_eq!(told.len(), 1);
    assert_eq!(told[0].0, "l");
    assert_eq!(format!("{:?}", told[0].1), freed(1));
    assert!(sfu.destinations(&"a".to_string()).is_empty());
    assert_eq!(sfu.mute_all(&"a".to_string()), Err(SfuError::UnknownSession));
}

#[test]
fn new_session_of_a_listener_hears_nobody() {
    let mut sfu = with_session("l");
    sfu.set_subscriptions(&"l".to_string(), &names(&["a"])).unwrap();
    join(&mut sfu, "l");
    assert!(sfu.destinations(&"a".to_string()).is_empty());
}

#[test]
fn orders_are_obeyed() {
    let mut sfu = Sfu::new(40000);
    let l = "l".to_string();
    let early = SfuCommand::SetSubscriptions { listener: l.clone(), speakers: names(&["a"]) };
    let out = sfu.step(&early, None);
    assert!(matches!(out.reply, Reply::Subscribed(Err(SfuError::UnknownSession))));
    let accept = SfuCommand::AcceptOffer { steam_id: l.clone(), sdp: offer(SLOTS + 1) };
    assert!(matches!(sfu.step(&accept, None).reply, Reply::Answer(Err(SfuError::NoAnswer))));
    let out = sfu.step(&accept, Some("answer".to_string()));
    assert!(matches!(out.reply, Reply::Answer(Ok(ref s)) if s == "answer"));
    let out = sfu.step(&early, None);
    assert!(matches!(out.reply, Reply::Subscribed(Ok(()))));
    assert_eq!(out.tell.len(), 1);
    assert_eq!(out.tell[0].0, "l");
    assert_eq!(format!("{:?}", out.tell[0].1), peer(1, "a"));
    let ice = SfuCommand::Ice { steam_id: l.clone(), candidate: serde_json::Value::Null };
    assert!(matches!(sfu.step(&ice, None).reply, Reply::Nothing));
    let out = sfu.step(&SfuCommand::MuteAll { listener: l.clone() }, None);
    assert!(out.tell.is_empty() && out.bye.is_none());
    assert!(sfu.destinations(&"a".to_string()).is_empty());
    let end = SfuCommand::Disconnect { steam_id: l.clone(), reason: ByeReason::ServerShutdown };
    assert_eq!(sfu.step(&end, None).bye, Some((l, ByeReason::ServerShutdown)));
}
