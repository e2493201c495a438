//! What the forwarding table does, slot by slot and session by session: its
//! operations stated by what is in the table before and after, without the
//! functions that compute them.
use crate::proto::{ByeReason, ServerMsgView, SLOTS};
use crate::sdp::mids;
use crate::sfu::{
    addressed, departed, farewells, fresh, has_session, obeyed, only_the_nearest_are_forwarded,
    place, routes, sessions_wf, subscribed, subscribed_is_sound, Outcome, Reply, SessionView,
    SfuError, SfuView,
};
use crate::slots::{
    changes, nearest, seated, slot_of, slot_of_the_seated, slots_keep_their_names, slots_wf,
    vacated, who_stays_keeps_the_slot, SlotView,
};
use crate::state::SfuCommandView;
use vstd::prelude::*;

verus! {

/// Whether the voice of `who` goes out in slot `j` of a session.
pub open spec fn carried(s: SessionView, j: int, who: Seq<char>) -> bool {
    !s.muted && 0 <= j < s.slots.len() && s.slots[j].speaker == Some(who)
}

/// Whether `who` is one of the first `SLOTS` names of a list.
pub open spec fn among_the_first(speakers: Seq<Seq<char>>, who: Seq<char>) -> bool {
    exists|i: int| 0 <= i < speakers.len() && i < SLOTS && #[trigger] speakers[i] == who
}

/// Each of the first `SLOTS` speakers of a list is forwarded in a slot, and
/// nobody else; a speaker who had a slot and is among them keeps it. The slots
/// keep their number and their names, no speaker has two, and the session is
/// the same, not muted any more.
pub proof fn subscriptions_slot_by_slot(
    s: SessionView,
    speakers: Seq<Seq<char>>,
    i: int,
    j: int,
    k: int,
)
    requires
        slots_wf(s.slots),
    ensures
        ({
            let after = subscribed(s, speakers);
            &&& after.steam_id == s.steam_id
            &&& !after.muted
            &&& after.slots.len() == s.slots.len()
            &&& 0 <= i < speakers.len() && i < SLOTS ==> exists|n: int|
                #[trigger] carried(after, n, speakers[i])
            &&& 0 <= j < s.slots.len() ==> {
                &&& after.slots[j].mid == s.slots[j].mid
                &&& after.slots[j].speaker matches Some(who) ==> among_the_first(speakers, who)
                &&& s.slots[j].speaker matches Some(who) ==> (among_the_first(speakers, who)
                    ==> after.slots[j].speaker == Some(who))
            }
            &&& 0 <= j < k < s.slots.len() && after.slots[j].speaker is Some
                ==> after.slots[j].speaker != after.slots[k].speaker
        }),
{
    let after = subscribed(s, speakers);
    let first = nearest(speakers);
    subscribed_is_sound(s, speakers);
    if 0 <= i < speakers.len() && i < SLOTS {
        assert(first[i] == speakers[i]);
        assert(first.contains(speakers[i]));
        only_the_nearest_are_forwarded(s, speakers, speakers[i]);
        let n = choose|n: int|
            0 <= n < after.slots.len() && (#[trigger] after.slots[n]).speaker == Some(speakers[i]);
        assert(carried(after, n, speakers[i]));
    }
    if 0 <= j < s.slots.len() {
        slots_keep_their_names(s.slots, speakers, j);
        if let Some(who) = after.slots[j].speaker {
            only_the_nearest_are_forwarded(s, speakers, who);
            assert(seated(after.slots, who));
            let n = choose|n: int| 0 <= n < first.len() && first[n] == who;
            assert(speakers[n] == who);
        }
        if let Some(who) = s.slots[j].speaker {
            if among_the_first(speakers, who) {
                let n = choose|n: int|
                    0 <= n < speakers.len() && n < SLOTS && #[trigger] speakers[n] == who;
                assert(first[n] == who);
                who_stays_keeps_the_slot(s.slots, speakers, j);
            }
        }
    }
}

/// For each slot of which the speaker is another now there is a message with
/// the name of the slot and its speaker, and there is no other message, nor
/// more messages than slots.
pub proof fn messages_slot_by_slot(before: Seq<SlotView>, after: Seq<SlotView>, j: int, n: int)
    requires
        before.len() == after.len(),
    ensures
        0 <= j < after.len() && before[j].speaker != after[j].speaker ==> changes(
            before,
            after,
        ).contains(ServerMsgView::Peer { mid: after[j].mid, id: after[j].speaker }),
        0 <= n < changes(before, after).len() ==> exists|k: int|
            0 <= k < after.len() && before[k].speaker != (#[trigger] after[k]).speaker && changes(
                before,
                after,
            )[n] == (ServerMsgView::Peer { mid: after[k].mid, id: after[k].speaker }),
        changes(before, after).len() <= after.len(),
    decreases after.len(),
{
    if after.len() > 0 {
        let a = before.drop_last();
        let b = after.drop_last();
        let last = after.len() - 1;
        let rest = changes(a, b);
        let all = changes(before, after);
        messages_slot_by_slot(a, b, j, n);
        if 0 <= j < after.len() && before[j].speaker != after[j].speaker {
            let msg = ServerMsgView::Peer { mid: after[j].mid, id: after[j].speaker };
            if j < last {
                let m = choose|m: int| 0 <= m < rest.len() && rest[m] == msg;
                assert(all[m] == msg);
            } else {
                assert(all[rest.len() as int] == msg);
            }
        }
        if 0 <= n < all.len() {
            if n < rest.len() {
                assert(all[n] == rest[n]);
                let k = choose|k: int|
                    0 <= k < b.len() && a[k].speaker != (#[trigger] b[k]).speaker && rest[n] == (
                    ServerMsgView::Peer { mid: b[k].mid, id: b[k].speaker });
                assert(after[k] == b[k] && before[k] == a[k]);
            } else {
                assert(after[last] == after.last());
                assert(before[last].speaker != after[last].speaker);
            }
        }
    }
}

/// Whether the session `t` is `s` once `id` has left it as a speaker: the
/// slots of `id` are free, and all else is as it was.
pub open spec fn rid_of(s: SessionView, t: SessionView, id: Seq<char>) -> bool {
    &&& t.steam_id == s.steam_id
    &&& t.muted == s.muted
    &&& t.slots.len() == s.slots.len()
    &&& forall|j: int|
        0 <= j < s.slots.len() ==> (#[trigger] t.slots[j]).mid == s.slots[j].mid && t.slots[j].speaker
            == if s.slots[j].speaker == Some(id) {
            None
        } else {
            s.slots[j].speaker
        }
}

/// Every session of another name is there after a departure, with the slots of
/// the one who left free and with nothing else changed; there is no session
/// besides, and none of the one who left.
pub proof fn departure_session_by_session(sessions: Seq<SessionView>, id: Seq<char>, i: int, k: int)
    requires
        sessions_wf(sessions),
    ensures
        ({
            let after = departed(sessions, id);
            &&& 0 <= i < sessions.len() && sessions[i].steam_id != id ==> exists|n: int|
                0 <= n < after.len() && rid_of(sessions[i], #[trigger] after[n], id)
            &&& 0 <= k < after.len() ==> after[k].steam_id != id && exists|n: int|
                0 <= n < sessions.len() && rid_of(#[trigger] sessions[n], after[k], id)
            &&& sessions_wf(after)
            &&& after.len() <= sessions.len()
        }),
    decreases sessions.len(),
{
    crate::sfu::departed_is_sound(sessions, id);
    stayed(sessions, id, i, k);
}

proof fn stayed(sessions: Seq<SessionView>, id: Seq<char>, i: int, k: int)
    ensures
        ({
            let after = departed(sessions, id);
            &&& 0 <= i < sessions.len() && sessions[i].steam_id != id ==> exists|n: int|
                0 <= n < after.len() && rid_of(sessions[i], #[trigger] after[n], id)
            &&& 0 <= k < after.len() ==> after[k].steam_id != id && exists|n: int|
                0 <= n < sessions.len() && rid_of(#[trigger] sessions[n], after[k], id)
            &&& after.len() <= sessions.len()
        }),
    decreases sessions.len(),
{
    if sessions.len() > 0 {
        let init = sessions.drop_last();
        let last = sessions.len() - 1;
        let rest = departed(init, id);
        let after = departed(sessions, id);
        stayed(init, id, i, k);
        if 0 <= i < sessions.len() && sessions[i].steam_id != id {
            if i < last {
                assert(init[i] == sessions[i]);
                let n = choose|n: int|
                    0 <= n < rest.len() && rid_of(init[i], #[trigger] rest[n], id);
                assert(after[n] == rest[n]);
            } else {
                assert(rid_of(sessions[i], after[rest.len() as int], id));
            }
        }
        if 0 <= k < after.len() {
            if k < rest.len() {
                assert(after[k] == rest[k]);
                let n = choose|n: int|
                    0 <= n < init.len() && rid_of(#[trigger] init[n], rest[k], id);
                assert(sessions[n] == init[n]);
            } else {
                assert(rid_of(sessions[last], after[k], id));
            }
        }
    }
}

/// When one leaves, everyone who has the leaver in a slot is told that the
/// slot is free, and nobody is told anything else.
pub proof fn farewells_slot_by_slot(
    sessions: Seq<SessionView>,
    id: Seq<char>,
    i: int,
    j: int,
    n: int,
)
    ensures
        0 <= i < sessions.len() && sessions[i].steam_id != id && 0 <= j < sessions[i].slots.len()
            && sessions[i].slots[j].speaker == Some(id) ==> farewells(sessions, id).contains(
            (
                sessions[i].steam_id,
                ServerMsgView::Peer { mid: sessions[i].slots[j].mid, id: None::<Seq<char>> },
            ),
        ),
        0 <= n < farewells(sessions, id).len() ==> exists|a: int, b: int|
            0 <= a < sessions.len() && (#[trigger] sessions[a]).steam_id != id && 0 <= b
                < sessions[a].slots.len() && (#[trigger] sessions[a].slots[b]).speaker == Some(id)
                && farewells(sessions, id)[n] == (
                sessions[a].steam_id,
                ServerMsgView::Peer { mid: sessions[a].slots[b].mid, id: None::<Seq<char>> },
            ),
    decreases sessions.len(),
{
    if sessions.len() > 0 {
        let init = sessions.drop_last();
        let last = sessions.len() - 1;
        let s = sessions[last];
        let rest = farewells(init, id);
        let all = farewells(sessions, id);
        let slots = vacated(s.slots, id);
        let msgs = changes(s.slots, slots);
        farewells_slot_by_slot(init, id, i, j, n);
        if 0 <= i < sessions.len() && sessions[i].steam_id != id && 0 <= j < sessions[i].slots.len()
            && sessions[i].slots[j].speaker == Some(id) {
            let msg = ServerMsgView::Peer {
                mid: sessions[i].slots[j].mid,
                id: None::<Seq<char>>,
            };
            let note = (sessions[i].steam_id, msg);
            if i < last {
                assert(init[i] == sessions[i]);
                let m = choose|m: int| 0 <= m < rest.len() && rest[m] == note;
                assert(all[m] == note);
            } else {
                messages_slot_by_slot(s.slots, slots, j, 0);
                let m = choose|m: int| 0 <= m < msgs.len() && msgs[m] == msg;
                assert(all[rest.len() + m] == note);
            }
        }
        if 0 <= n < all.len() {
            if n < rest.len() {
                assert(all[n] == rest[n]);
                let (a, b) = choose|a: int, b: int|
                    0 <= a < init.len() && (#[trigger] init[a]).steam_id != id && 0 <= b
                        < init[a].slots.len() && (#[trigger] init[a].slots[b]).speaker == Some(id)
                        && rest[n] == (
                        init[a].steam_id,
                        ServerMsgView::Peer { mid: init[a].slots[b].mid, id: None::<Seq<char>> },
                    );
                assert(sessions[a] == init[a]);
                assert(sessions[a].slots[b].speaker == Some(id));
            } else {
                let m = n - rest.len();
                messages_slot_by_slot(s.slots, slots, 0, m);
                let k = choose|k: int|
                    0 <= k < slots.len() && s.slots[k].speaker != (#[trigger] slots[k]).speaker
                        && msgs[m] == (ServerMsgView::Peer { mid: slots[k].mid, id: slots[k].speaker });
                assert(sessions[last].slots[k].speaker == Some(id));
            }
        }
    }
}

/// A voice goes to a listener in a slot exactly if the listener's session is
/// not muted and has the speaker in that slot; to each listener it goes once.
pub proof fn routes_slot_by_slot(
    sessions: Seq<SessionView>,
    speaker: Seq<char>,
    i: int,
    j: int,
    n: int,
)
    requires
        sessions_wf(sessions),
    ensures
        0 <= i < sessions.len() && carried(sessions[i], j, speaker) ==> routes(
            sessions,
            speaker,
        ).contains((sessions[i].steam_id, sessions[i].slots[j].mid)),
        0 <= n < routes(sessions, speaker).len() ==> exists|a: int, b: int|
            0 <= a < sessions.len() && #[trigger] carried(sessions[a], b, speaker) && routes(
                sessions,
                speaker,
            )[n] == (sessions[a].steam_id, sessions[a].slots[b].mid),
        forall|a: int, b: int|
            0 <= a < b < routes(sessions, speaker).len() ==> (#[trigger] routes(
                sessions,
                speaker,
            )[a]).0 != (#[trigger] routes(sessions, speaker)[b]).0,
    decreases sessions.len(),
{
    if sessions.len() > 0 {
        let init = sessions.drop_last();
        let last = sessions.len() - 1;
        let s = sessions[last];
        let rest = routes(init, speaker);
        let all = routes(sessions, speaker);
        assert(sessions_wf(init)) by {
            assert forall|a: int, b: int| 0 <= a < b < init.len() implies (
            #[trigger] init[a]).steam_id != (#[trigger] init[b]).steam_id by {
                assert(sessions[a].steam_id != sessions[b].steam_id);
            }
            assert forall|a: int| 0 <= a < init.len() implies slots_wf(
                (#[trigger] init[a]).slots,
            ) by {
                assert(slots_wf(sessions[a].slots));
            }
        }
        assert(slots_wf(s.slots));
        routes_slot_by_slot(init, speaker, i, j, n);
        slot_of_the_seated(s.slots, speaker);
        if 0 <= i < sessions.len() && carried(sessions[i], j, speaker) {
            let route = (sessions[i].steam_id, sessions[i].slots[j].mid);
            if i < last {
                assert(init[i] == sessions[i]);
                let m = choose|m: int| 0 <= m < rest.len() && rest[m] == route;
                assert(all[m] == route);
            } else {
                assert(s.slots[j].speaker == Some(speaker));
                assert(seated(s.slots, speaker));
                let b = choose|b: int|
                    0 <= b < s.slots.len() && (#[trigger] s.slots[b]).speaker == Some(speaker)
                        && s.slots[b].mid == slot_of(s.slots, speaker)->0;
                assert(b == j);
                assert(all[rest.len() as int] == route);
            }
        }
        if 0 <= n < all.len() {
            if n < rest.len() {
                assert(all[n] == rest[n]);
                let (a, b) = choose|a: int, b: int|
                    0 <= a < init.len() && #[trigger] carried(init[a], b, speaker) && rest[n] == (
                        init[a].steam_id,
                        init[a].slots[b].mid,
                    );
                assert(carried(sessions[a], b, speaker));
            } else {
                let b = choose|b: int|
                    0 <= b < s.slots.len() && (#[trigger] s.slots[b]).speaker == Some(speaker)
                        && s.slots[b].mid == slot_of(s.slots, speaker)->0;
                assert(carried(sessions[last], b, speaker));
            }
        }
        assert forall|a: int, b: int| 0 <= a < b < all.len() implies (#[trigger] all[a]).0 != (
        #[trigger] all[b]).0 by {
            assert(all[a] == rest[a]);
            if b < rest.len() {
                assert(all[b] == rest[b]);
            } else {
                routes_slot_by_slot(init, speaker, 0, 0, a);
                let (c, d) = choose|c: int, d: int|
                    0 <= c < init.len() && #[trigger] carried(init[c], d, speaker) && rest[a] == (
                        init[c].steam_id,
                        init[c].slots[d].mid,
                    );
                assert(sessions[c].steam_id != sessions[last].steam_id);
            }
        }
    }
}

/// After a departure the voices of the others go where they went, but to the
/// one who left.
pub proof fn the_others_go_on_hearing(
    sessions: Seq<SessionView>,
    id: Seq<char>,
    speaker: Seq<char>,
    route: (Seq<char>, Seq<char>),
)
    requires
        sessions_wf(sessions),
        speaker != id,
    ensures
        routes(departed(sessions, id), speaker).contains(route) <==> routes(
            sessions,
            speaker,
        ).contains(route) && route.0 != id,
{
    let after = departed(sessions, id);
    let now = routes(after, speaker);
    let then = routes(sessions, speaker);
    departure_session_by_session(sessions, id, 0, 0);
    if then.contains(route) && route.0 != id {
        let n = choose|n: int| 0 <= n < then.len() && then[n] == route;
        routes_slot_by_slot(sessions, speaker, 0, 0, n);
        let (a, b) = choose|a: int, b: int|
            0 <= a < sessions.len() && #[trigger] carried(sessions[a], b, speaker) && then[n] == (
                sessions[a].steam_id,
                sessions[a].slots[b].mid,
            );
        departure_session_by_session(sessions, id, a, 0);
        let m = choose|m: int|
            0 <= m < after.len() && rid_of(sessions[a], #[trigger] after[m], id);
        assert(after[m].slots[b].speaker == Some(speaker));
        assert(carried(after[m], b, speaker));
        routes_slot_by_slot(after, speaker, m, b, 0);
    }
    if now.contains(route) {
        let n = choose|n: int| 0 <= n < now.len() && now[n] == route;
        routes_slot_by_slot(after, speaker, 0, 0, n);
        let (a, b) = choose|a: int, b: int|
            0 <= a < after.len() && #[trigger] carried(after[a], b, speaker) && now[n] == (
                after[a].steam_id,
                after[a].slots[b].mid,
            );
        departure_session_by_session(sessions, id, 0, a);
        let m = choose|m: int|
            0 <= m < sessions.len() && rid_of(#[trigger] sessions[m], after[a], id);
        assert(after[a].slots[b].mid == sessions[m].slots[b].mid);
        assert(carried(sessions[m], b, speaker));
        routes_slot_by_slot(sessions, speaker, m, b, 0);
    }
}

/// Whether the table has the same sessions but for those of one name.
pub open spec fn only_one_session_changes(
    before: Seq<SessionView>,
    after: Seq<SessionView>,
    id: Seq<char>,
) -> bool {
    &&& forall|i: int|
        0 <= i < before.len() && (#[trigger] before[i]).steam_id != id ==> after.contains(before[i])
    &&& forall|i: int|
        0 <= i < after.len() && (#[trigger] after[i]).steam_id != id ==> before.contains(after[i])
}

proof fn replaced(before: Seq<SessionView>, at: int, s: SessionView)
    requires
        0 <= at < before.len(),
        before[at].steam_id == s.steam_id,
    ensures
        only_one_session_changes(before, before.update(at, s), s.steam_id),
{
    let after = before.update(at, s);
    assert forall|i: int|
        0 <= i < before.len() && (#[trigger] before[i]).steam_id != s.steam_id implies after.contains(
        before[i],
    ) by {
        assert(after[i] == before[i]);
    }
    assert forall|i: int|
        0 <= i < after.len() && (#[trigger] after[i]).steam_id != s.steam_id implies before.contains(
        after[i],
    ) by {
        assert(before[i] == after[i]);
    }
}

/// An offer with a microphone and `SLOTS` further sections, all of different
/// names, which the transport answers, makes a session of that player, in place
/// of an earlier one: a slot for each further section, under its name and free.
/// The other sessions stay. Any other offer changes nothing and is refused.
pub proof fn offers_are_accepted_or_refused(
    before: SfuView,
    id: Seq<char>,
    sdp: Seq<char>,
    answer: Option<String>,
    after: SfuView,
    out: Outcome,
    n: int,
)
    requires
        sessions_wf(before.sessions),
        obeyed(before, SfuCommandView::AcceptOffer { steam_id: id, sdp }, answer, after, out),
    ensures
        out.tell@.len() == 0,
        out.bye is None,
        after.udp_port == before.udp_port,
        ({
            let good = mids(sdp).len() == SLOTS + 1 && forall|a: int, b: int|
                0 <= a < b < mids(sdp).len() ==> #[trigger] mids(sdp)[a] != #[trigger] mids(sdp)[b];
            if good && answer is Some {
                &&& out.reply matches Reply::Answer(Ok(text)) && text == answer->0
                &&& only_one_session_changes(before.sessions, after.sessions, id)
                &&& exists|i: int|
                    0 <= i < after.sessions.len() && (#[trigger] after.sessions[i]).steam_id == id
                &&& 0 <= n < after.sessions.len() && after.sessions[n].steam_id == id ==> {
                    let s = after.sessions[n];
                    &&& !s.muted
                    &&& s.slots.len() == SLOTS
                    &&& forall|j: int|
                        0 <= j < SLOTS ==> (#[trigger] s.slots[j]).mid == mids(sdp)[j + 1]
                            && s.slots[j].speaker is None
                }
            } else {
                &&& after == before
                &&& out.reply matches Reply::Answer(Err(e)) && e == if good {
                    SfuError::NoAnswer
                } else {
                    SfuError::BadOffer
                }
            }
        }),
{
    let all = before.sessions;
    let names = mids(sdp);
    assert(out.tell.deep_view().len() == out.tell@.len());
    assert(names.no_duplicates() <==> forall|a: int, b: int|
        0 <= a < b < names.len() ==> #[trigger] names[a] != #[trigger] names[b]);
    let s = fresh(id, sdp);
    if crate::sfu::well_offered(sdp) && answer is Some {
        if has_session(all, id) {
            let at = place(all, id);
            assert(all[at].steam_id == id);
            replaced(all, at, s);
            assert(after.sessions[at].steam_id == id);
            if 0 <= n < after.sessions.len() && after.sessions[n].steam_id == id && n != at {
                assert(all[n].steam_id == id);
                if n < at {
                    assert(all[n].steam_id != all[at].steam_id);
                } else {
                    assert(all[at].steam_id != all[n].steam_id);
                }
            }
        } else {
            assert(after.sessions == all.push(s));
            assert(after.sessions[all.len() as int].steam_id == id);
            assert forall|i: int|
                0 <= i < all.len() && (#[trigger] all[i]).steam_id != id implies after.sessions.contains(
            all[i]) by {
                assert(after.sessions[i] == all[i]);
            }
            assert forall|i: int|
                0 <= i < after.sessions.len() && (
                #[trigger] after.sessions[i]).steam_id != id implies all.contains(
                after.sessions[i],
            ) by {
                assert(all[i] == after.sessions[i]);
            }
            if 0 <= n < all.len() {
                assert(after.sessions[n] == all[n]);
            }
        }
    }
}

/// Subscriptions of a listener who has a session change that session and no
/// other: each of the first `SLOTS` speakers goes out to the listener, and
/// nobody else. The listener is told of each slot that changes hands, and
/// nobody is told anything else. Of any other listener they are refused.
pub proof fn subscriptions_are_obeyed(
    before: SfuView,
    listener: Seq<char>,
    speakers: Seq<Seq<char>>,
    answer: Option<String>,
    after: SfuView,
    out: Outcome,
    i: int,
    n: int,
    who: Seq<char>,
)
    requires
        sessions_wf(before.sessions),
        obeyed(
            before,
            SfuCommandView::SetSubscriptions { listener, speakers },
            answer,
            after,
            out,
        ),
    ensures
        out.bye is None,
        after.udp_port == before.udp_port,
        only_one_session_changes(before.sessions, after.sessions, listener),
        after.sessions.len() == before.sessions.len(),
        (forall|k: int|
            0 <= k < before.sessions.len() ==> (#[trigger] before.sessions[k]).steam_id != listener)
            ==> out.reply == Reply::Subscribed(Err(SfuError::UnknownSession)) && out.tell@.len()
            == 0,
        0 <= i < before.sessions.len() && before.sessions[i].steam_id == listener ==> {
            let s = before.sessions[i];
            let t = after.sessions[i];
            &&& out.reply == Reply::Subscribed(Ok(()))
            &&& t.steam_id == listener
            &&& (exists|j: int| #[trigger] carried(t, j, who)) <==> among_the_first(speakers, who)
            &&& 0 <= n < out.tell@.len() ==> {
                &&& out.tell@[n].0@ == listener
                &&& exists|j: int|
                    0 <= j < s.slots.len() && s.slots[j].speaker != (#[trigger] t.slots[j]).speaker
                        && out.tell@[n].1.deep_view() == (ServerMsgView::Peer {
                        mid: s.slots[j].mid,
                        id: t.slots[j].speaker,
                    })
            }
            &&& 0 <= n < s.slots.len() && s.slots[n].speaker != t.slots[n].speaker ==> exists|m: int|
                0 <= m < out.tell@.len() && (#[trigger] out.tell@[m]).1.deep_view() == (
                ServerMsgView::Peer { mid: s.slots[n].mid, id: t.slots[n].speaker })
        },
{
    let all = before.sessions;
    if has_session(all, listener) {
        let at = place(all, listener);
        assert(all[at].steam_id == listener);
        let s = all[at];
        let t = subscribed(s, speakers);
        assert(slots_wf(s.slots));
        replaced(all, at, t);
        if 0 <= i < all.len() && all[i].steam_id == listener {
            if i < at {
                assert(all[i].steam_id != all[at].steam_id);
            }
            if at < i {
                assert(all[at].steam_id != all[i].steam_id);
            }
            assert(i == at);
            let msgs = changes(s.slots, t.slots);
            let told = out.tell.deep_view();
            assert(told == addressed(listener, msgs));
            assert(told.len() == out.tell@.len() && told.len() == msgs.len());
            assert(after.sessions[i] == t);
            subscriptions_slot_by_slot(s, speakers, 0, 0, 0);
            assert((exists|j: int| #[trigger] carried(t, j, who)) <==> among_the_first(
                speakers,
                who,
            )) by {
                if among_the_first(speakers, who) {
                    let m = choose|m: int|
                        0 <= m < speakers.len() && m < SLOTS && #[trigger] speakers[m] == who;
                    subscriptions_slot_by_slot(s, speakers, m, 0, 0);
                }
                if exists|j: int| #[trigger] carried(t, j, who) {
                    let j = choose|j: int| #[trigger] carried(t, j, who);
                    subscriptions_slot_by_slot(s, speakers, 0, j, 0);
                }
            }
            if 0 <= n < out.tell@.len() {
                assert(told[n] == (out.tell@[n].0@, out.tell@[n].1.deep_view()));
                messages_slot_by_slot(s.slots, t.slots, 0, n);
                let k = choose|k: int|
                    0 <= k < t.slots.len() && s.slots[k].speaker != (#[trigger] t.slots[k]).speaker
                        && msgs[n] == (ServerMsgView::Peer {
                        mid: t.slots[k].mid,
                        id: t.slots[k].speaker,
                    });
                subscriptions_slot_by_slot(s, speakers, 0, k, 0);
                assert(s.slots[k].speaker != t.slots[k].speaker);
            }
            if 0 <= n < s.slots.len() && s.slots[n].speaker != t.slots[n].speaker {
                messages_slot_by_slot(s.slots, t.slots, n, 0);
                subscriptions_slot_by_slot(s, speakers, 0, n, 0);
                let msg = ServerMsgView::Peer { mid: t.slots[n].mid, id: t.slots[n].speaker };
                let m = choose|m: int| 0 <= m < msgs.len() && msgs[m] == msg;
                assert(told[m] == (out.tell@[m].0@, out.tell@[m].1.deep_view()));
                assert(out.tell@[m].1.deep_view() == msg);
            }
        }
    } else {
        assert(out.tell.deep_view().len() == 0);
        assert forall|k: int|
            0 <= k < all.len() && (#[trigger] all[k]).steam_id != listener implies after.sessions.contains(
        all[k]) by {
            assert(after.sessions[k] == all[k]);
        }
        assert forall|k: int|
            0 <= k < after.sessions.len() && (
            #[trigger] after.sessions[k]).steam_id != listener implies all.contains(
            after.sessions[k],
        ) by {
            assert(all[k] == after.sessions[k]);
        }
    }
}

/// Muting a listener stops all that goes to the listener, who keeps the
/// session and every slot; no other session changes, and nobody is told.
pub proof fn muting_is_obeyed(
    before: SfuView,
    listener: Seq<char>,
    answer: Option<String>,
    after: SfuView,
    out: Outcome,
    i: int,
)
    requires
        sessions_wf(before.sessions),
        obeyed(before, SfuCommandView::MuteAll { listener }, answer, after, out),
    ensures
        out.bye is None,
        out.tell@.len() == 0,
        out.reply is Nothing,
        after.udp_port == before.udp_port,
        after.sessions.len() == before.sessions.len(),
        0 <= i < before.sessions.len() ==> {
            let s = before.sessions[i];
            let t = after.sessions[i];
            &&& t.steam_id == s.steam_id
            &&& t.slots == s.slots
            &&& t.muted == (s.muted || s.steam_id == listener)
        },
{
    let all = before.sessions;
    assert(out.tell.deep_view().len() == out.tell@.len());
    if has_session(all, listener) {
        let at = place(all, listener);
        assert(all[at].steam_id == listener);
        if 0 <= i < all.len() && i != at && all[i].steam_id == listener {
            if i < at {
                assert(all[i].steam_id != all[at].steam_id);
            } else {
                assert(all[at].steam_id != all[i].steam_id);
            }
        }
    }
}

/// A disconnection ends the session of that player, tells the player why, and
/// frees the player's slots at the others, who stay and are told; so does the
/// end of a replaced session, but for the player, whose new connection stays.
pub proof fn endings_are_obeyed(
    before: SfuView,
    id: Seq<char>,
    reason: ByeReason,
    answer: Option<String>,
    after: SfuView,
    out: Outcome,
    i: int,
    k: int,
    n: int,
)
    requires
        sessions_wf(before.sessions),
        obeyed(before, SfuCommandView::Disconnect { steam_id: id, reason }, answer, after, out)
            || obeyed(before, SfuCommandView::Supersede { steam_id: id }, answer, after, out),
    ensures
        obeyed(before, SfuCommandView::Disconnect { steam_id: id, reason }, answer, after, out) ==> (
        out.bye matches Some((who, why)) && who@ == id && why == reason),
        obeyed(before, SfuCommandView::Supersede { steam_id: id }, answer, after, out) ==> out.bye
            is None,
        out.reply is Nothing,
        0 <= i < before.sessions.len() && before.sessions[i].steam_id != id && 0 <= k
            < before.sessions[i].slots.len() && before.sessions[i].slots[k].speaker == Some(id)
            ==> exists|m: int|
            0 <= m < out.tell@.len() && (#[trigger] out.tell@[m]).0@ == before.sessions[i].steam_id
                && out.tell@[m].1.deep_view() == (ServerMsgView::Peer {
                mid: before.sessions[i].slots[k].mid,
                id: None::<Seq<char>>,
            }),
        after.udp_port == before.udp_port,
        0 <= i < before.sessions.len() && before.sessions[i].steam_id != id ==> exists|m: int|
            0 <= m < after.sessions.len() && rid_of(
                before.sessions[i],
                #[trigger] after.sessions[m],
                id,
            ),
        0 <= k < after.sessions.len() ==> after.sessions[k].steam_id != id && exists|m: int|
            0 <= m < before.sessions.len() && rid_of(
                #[trigger] before.sessions[m],
                after.sessions[k],
                id,
            ),
        0 <= n < out.tell@.len() ==> exists|a: int, b: int|
            0 <= a < before.sessions.len() && (#[trigger] before.sessions[a]).steam_id != id && 0 <= b
                < before.sessions[a].slots.len() && (
            #[trigger] before.sessions[a].slots[b]).speaker == Some(id) && out.tell@[n].0@
                == before.sessions[a].steam_id && out.tell@[n].1.deep_view() == (
            ServerMsgView::Peer { mid: before.sessions[a].slots[b].mid, id: None::<Seq<char>> }),
{
    departure_session_by_session(before.sessions, id, i, k);
    let left = departed(before.sessions, id);
    assert(after.sessions == left);
    if 0 <= i < before.sessions.len() && before.sessions[i].steam_id != id {
        let m = choose|m: int|
            0 <= m < left.len() && rid_of(before.sessions[i], #[trigger] left[m], id);
        assert(rid_of(before.sessions[i], after.sessions[m], id));
    }
    farewells_slot_by_slot(before.sessions, id, i, k, n);
    let told = out.tell.deep_view();
    assert(told == farewells(before.sessions, id));
    assert(told.len() == out.tell@.len());
    if 0 <= i < before.sessions.len() && before.sessions[i].steam_id != id && 0 <= k
        < before.sessions[i].slots.len() && before.sessions[i].slots[k].speaker == Some(id) {
        let note = (
            before.sessions[i].steam_id,
            ServerMsgView::Peer { mid: before.sessions[i].slots[k].mid, id: None::<Seq<char>> },
        );
        let m = choose|m: int| 0 <= m < told.len() && told[m] == note;
        assert(told[m] == (out.tell@[m].0@, out.tell@[m].1.deep_view()));
        assert(out.tell@[m].0@ == before.sessions[i].steam_id);
    }
    if 0 <= n < out.tell@.len() {
        assert(told[n] == (out.tell@[n].0@, out.tell@[n].1.deep_view()));
    }
}

/// A candidate changes nothing in the table and tells nobody anything.
pub proof fn candidates_pass_by(
    before: SfuView,
    id: Seq<char>,
    candidate: serde_json::Value,
    answer: Option<String>,
    after: SfuView,
    out: Outcome,
)
    requires
        obeyed(before, SfuCommandView::Ice { steam_id: id, candidate }, answer, after, out),
    ensures
        after == before,
        out.tell@.len() == 0,
        out.bye is None,
        out.reply is Nothing,
{
    assert(out.tell.deep_view().len() == out.tell@.len());
}

} // verus!
