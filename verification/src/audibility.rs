//! What rosters and graphs mean, place by place: the operations of the roster
//! stated by what has been pushed, without the functions that compute them.
use crate::hearing::{
    no_voice_is_lost_or_added, servers_are_kept_apart, to_subscribe, voices_come_nearest_first,
};
use crate::proto::{
    GraphPush, HeardView, ListenerView, ROSTER_TTL_S, RosterPush, ServerMsgView, TalkPush, YawPush,
};
use crate::roster::{
    audible, drops, eligible, expiries, graph_news, has_server, hears_by, hears_in, listens, names_of,
    nearest_first, push_news, pushed, resumes, roster_wf, server, server_at, settled, settlements,
    source, source_from, subscription, too_late, vanished, yaw_from, yaw_in, EffectView, Push,
    RosterView, ServerView, listener_names, in_force,
};
use crate::state::SfuCommandView;
use vstd::prelude::*;

verus! {

/// Whether the server at place `i` lets `id` hear: its last roster came no
/// more than `ROSTER_TTL_S` seconds ago, `id` is in its graph, and, where
/// leaving the roster takes the right to hear, on its roster.
pub open spec fn lets_hear(r: RosterView, i: int, id: Seq<char>, now: u64) -> bool {
    &&& 0 <= i < r.servers.len()
    &&& r.servers[i].received matches Some(t) && now <= t + ROSTER_TTL_S
    &&& r.revoke_on_death ==> r.servers[i].eligible.contains(id)
    &&& exists|k: int|
        0 <= k < r.servers[i].listeners.len() && (#[trigger] r.servers[i].listeners[k]).id == id
}

/// Whether the server at place `i` is the first that lets `id` hear.
pub open spec fn first_to_let_hear(r: RosterView, i: int, id: Seq<char>, now: u64) -> bool {
    lets_hear(r, i, id, now) && forall|j: int| 0 <= j < i ==> !#[trigger] lets_hear(r, j, id, now)
}

/// Whether no server lets `id` hear.
pub open spec fn deaf(r: RosterView, id: Seq<char>, now: u64) -> bool {
    forall|i: int| !#[trigger] lets_hear(r, i, id, now)
}

/// Whether entry `k` of a graph is the first of `id`.
pub open spec fn first_entry(listeners: Seq<ListenerView>, k: int, id: Seq<char>) -> bool {
    &&& 0 <= k < listeners.len()
    &&& listeners[k].id == id
    &&& forall|m: int| 0 <= m < k ==> (#[trigger] listeners[m]).id != id
}

/// Whether `hears` is what `id` may hear: what the first entry of `id` says in
/// the graph of the first server that lets `id` hear, or nothing.
pub open spec fn may_hear(r: RosterView, id: Seq<char>, now: u64, hears: Seq<HeardView>) -> bool {
    ||| deaf(r, id, now) && hears.len() == 0
    ||| exists|i: int, k: int|
        #[trigger] first_to_let_hear(r, i, id, now) && #[trigger] first_entry(
            r.servers[i].listeners,
            k,
            id,
        ) && hears == r.servers[i].listeners[k].hears
}

/// Whether `speakers` names the voices that are to be subscribed to, each as
/// often as it was pushed, in the order of their distance.
pub open spec fn nearest_come_first(speakers: Seq<Seq<char>>, hears: Seq<HeardView>) -> bool {
    exists|sorted: Seq<HeardView>|
        {
            &&& #[trigger] sorted.to_multiset() == to_subscribe(hears).to_multiset()
            &&& forall|a: int, b: int|
                0 <= a <= b < sorted.len() ==> (#[trigger] sorted[a]).d <= (#[trigger] sorted[b]).d
            &&& speakers.len() == sorted.len()
            &&& forall|a: int| 0 <= a < sorted.len() ==> #[trigger] speakers[a] == sorted[a].id
        }
}

/// Whether an effect orders for `id` what `id` may hear: to forward those
/// voices, the nearest first, or nothing where no server lets `id` hear.
pub open spec fn right_order(r: RosterView, id: Seq<char>, now: u64, e: EffectView) -> bool {
    ||| deaf(r, id, now) && e == EffectView::Order(SfuCommandView::MuteAll { listener: id })
    ||| exists|i: int, k: int, speakers: Seq<Seq<char>>|
        #[trigger] first_to_let_hear(r, i, id, now) && #[trigger] first_entry(
            r.servers[i].listeners,
            k,
            id,
        ) && #[trigger] nearest_come_first(speakers, r.servers[i].listeners[k].hears) && e
            == EffectView::Order(SfuCommandView::SetSubscriptions { listener: id, speakers })
}

/// Whether an effect tells `id` what `id` may hear.
pub open spec fn right_news(r: RosterView, id: Seq<char>, now: u64, e: EffectView) -> bool {
    e matches EffectView::Tell(to, ServerMsgView::Graph { hears }) && to == id && may_hear(
        r,
        id,
        now,
        hears,
    )
}

proof fn by_place(r: RosterView, i: int, id: Seq<char>, now: u64)
    requires
        0 <= i < r.servers.len(),
    ensures
        lets_hear(r, i, id, now) == hears_by(r, r.servers[i], id, now),
{
    let s = r.servers[i];
    if hears_by(r, s, id, now) {
        let k = choose|k: int| 0 <= k < s.listeners.len() && (#[trigger] s.listeners[k]).id == id;
        assert(r.servers[i].listeners[k].id == id);
    }
    if lets_hear(r, i, id, now) {
        let k = choose|k: int|
            0 <= k < r.servers[i].listeners.len() && (#[trigger] r.servers[i].listeners[k]).id == id;
        assert(s.listeners[k].id == id);
    }
}

proof fn source_is_first(r: RosterView, id: Seq<char>, now: u64, from: int)
    requires
        0 <= from,
        forall|j: int| 0 <= j < from ==> !#[trigger] lets_hear(r, j, id, now),
    ensures
        source_from(r, id, now, from) matches Some(i) ==> first_to_let_hear(r, i, id, now),
        source_from(r, id, now, from) is None ==> deaf(r, id, now),
    decreases r.servers.len() - from,
{
    if from < r.servers.len() {
        by_place(r, from, id, now);
        if !hears_by(r, r.servers[from], id, now) {
            source_is_first(r, id, now, from + 1);
        }
    }
}

proof fn entry_is_first(listeners: Seq<ListenerView>, id: Seq<char>, k: int)
    requires
        first_entry(listeners, k, id),
    ensures
        hears_in(listeners, id) == listeners[k].hears,
    decreases listeners.len(),
{
    if k > 0 {
        let rest = listeners.drop_first();
        assert(listeners[0].id != id);
        assert forall|m: int| 0 <= m < k - 1 implies (#[trigger] rest[m]).id != id by {
            assert(listeners[m + 1].id != id);
        }
        entry_is_first(rest, id, k - 1);
    }
}

proof fn there_is_a_first_entry(listeners: Seq<ListenerView>, id: Seq<char>, m: int)
    requires
        0 <= m < listeners.len(),
        listeners[m].id == id,
    ensures
        exists|k: int| #[trigger] first_entry(listeners, k, id),
    decreases m,
{
    if exists|j: int| 0 <= j < m && (#[trigger] listeners[j]).id == id {
        let j = choose|j: int| 0 <= j < m && (#[trigger] listeners[j]).id == id;
        there_is_a_first_entry(listeners, id, j);
    } else {
        assert(first_entry(listeners, m, id));
    }
}

/// A listener hears what the first entry says in the graph of the first server
/// that lets it hear; of several servers and of several entries no other counts.
pub proof fn the_first_server_says_who_is_heard(
    r: RosterView,
    id: Seq<char>,
    now: u64,
    i: int,
    k: int,
)
    requires
        first_to_let_hear(r, i, id, now),
        first_entry(r.servers[i].listeners, k, id),
    ensures
        audible(r, id, now) == r.servers[i].listeners[k].hears,
{
    source_is_first(r, id, now, 0);
    let j = source(r, id, now)->0;
    assert(source(r, id, now) is Some);
    assert(first_to_let_hear(r, j, id, now));
    if j < i {
        assert(!lets_hear(r, j, id, now));
    }
    if i < j {
        assert(!lets_hear(r, i, id, now));
    }
    entry_is_first(r.servers[i].listeners, id, k);
}

/// Whom no server lets hear, hears nobody.
pub proof fn the_deaf_hear_nobody(r: RosterView, id: Seq<char>, now: u64)
    requires
        deaf(r, id, now),
    ensures
        audible(r, id, now).len() == 0,
{
    source_is_first(r, id, now, 0);
}

/// What is audible is what may be heard.
pub proof fn what_is_audible_may_be_heard(r: RosterView, id: Seq<char>, now: u64)
    ensures
        may_hear(r, id, now, audible(r, id, now)),
        forall|hears: Seq<HeardView>| #[trigger]
            may_hear(r, id, now, hears) ==> hears == audible(r, id, now),
{
    source_is_first(r, id, now, 0);
    if let Some(i) = source(r, id, now) {
        let m = choose|m: int|
            0 <= m < r.servers[i].listeners.len() && (#[trigger] r.servers[i].listeners[m]).id == id;
        there_is_a_first_entry(r.servers[i].listeners, id, m);
        let k = choose|k: int| #[trigger] first_entry(r.servers[i].listeners, k, id);
        the_first_server_says_who_is_heard(r, id, now, i, k);
    }
    assert forall|hears: Seq<HeardView>| #[trigger] may_hear(r, id, now, hears) implies hears
        == audible(r, id, now) by {
        if deaf(r, id, now) && hears.len() == 0 {
            assert(hears =~= audible(r, id, now));
        } else {
            let (i, k) = choose|i: int, k: int|
                #[trigger] first_to_let_hear(r, i, id, now) && #[trigger] first_entry(
                    r.servers[i].listeners,
                    k,
                    id,
                ) && hears == r.servers[i].listeners[k].hears;
            the_first_server_says_who_is_heard(r, id, now, i, k);
        }
    }
}

proof fn sorted_names(hears: Seq<HeardView>)
    ensures
        nearest_come_first(names_of(nearest_first(hears)), hears),
{
    let sorted = nearest_first(hears);
    no_voice_is_lost_or_added(hears);
    voices_come_nearest_first(hears);
    assert(sorted.to_multiset() == to_subscribe(hears).to_multiset());
}

/// The order that settles a listener is the right one, and it is for that listener.
pub proof fn settling_is_right(r: RosterView, id: Seq<char>, now: u64)
    ensures
        right_order(r, id, now, settled(r, id, now)),
{
    source_is_first(r, id, now, 0);
    if let Some(i) = source(r, id, now) {
        let m = choose|m: int|
            0 <= m < r.servers[i].listeners.len() && (#[trigger] r.servers[i].listeners[m]).id == id;
        there_is_a_first_entry(r.servers[i].listeners, id, m);
        let k = choose|k: int| #[trigger] first_entry(r.servers[i].listeners, k, id);
        entry_is_first(r.servers[i].listeners, id, k);
        let speakers = names_of(nearest_first(r.servers[i].listeners[k].hears));
        sorted_names(r.servers[i].listeners[k].hears);
        assert(first_to_let_hear(r, i, id, now));
        assert(nearest_come_first(speakers, r.servers[i].listeners[k].hears));
    }
}

/// Whether nothing but what is known of one server differs: all servers keep
/// their places, and that one has a place, a new one behind the others.
pub open spec fn only_one_server_changes(r: RosterView, after: RosterView, server_id: Seq<char>) -> bool {
    &&& after.revoke_on_death == r.revoke_on_death
    &&& after.whitelist == r.whitelist
    &&& forall|i: int|
        0 <= i < r.servers.len() ==> (#[trigger] after.servers[i]).server_id == r.servers[i].server_id
    &&& forall|i: int|
        0 <= i < r.servers.len() && (#[trigger] r.servers[i]).server_id != server_id
            ==> after.servers[i] == r.servers[i]
    &&& exists|i: int|
        0 <= i < after.servers.len() && (#[trigger] after.servers[i]).server_id == server_id
    &&& after.servers.len() == r.servers.len() || (after.servers.len() == r.servers.len() + 1
        && after.servers.last().server_id == server_id && forall|i: int|
        0 <= i < r.servers.len() ==> (#[trigger] r.servers[i]).server_id != server_id)
}

/// What had been known of the server at a place, where it was there.
pub open spec fn known_at(r: RosterView, i: int) -> Option<ServerView> {
    if 0 <= i < r.servers.len() {
        Some(r.servers[i])
    } else {
        None
    }
}

/// Whether a state of a server has the roster of another, or none where there is no other.
pub open spec fn same_roster(s: ServerView, before: Option<ServerView>) -> bool {
    match before {
        Some(b) => s.roster_seq == b.roster_seq && s.eligible == b.eligible && s.received
            == b.received,
        None => s.roster_seq is None && s.eligible.len() == 0 && s.received is None,
    }
}

/// Whether a state of a server has the graph of another, or none where there is no other.
pub open spec fn same_graph(s: ServerView, before: Option<ServerView>) -> bool {
    match before {
        Some(b) => s.graph_seq == b.graph_seq && s.listeners == b.listeners,
        None => s.graph_seq is None && s.listeners.len() == 0,
    }
}

/// Whether a state of a server has the orientations of another, or none where there is no other.
pub open spec fn same_yaws(s: ServerView, before: Option<ServerView>) -> bool {
    match before {
        Some(b) => s.yaw_seq == b.yaw_seq && s.yaws == b.yaws,
        None => s.yaw_seq is None && s.yaws.len() == 0,
    }
}

/// Whether a state of a server has the count of key pushes of another, or none
/// where there is no other.
pub open spec fn same_talk(s: ServerView, before: Option<ServerView>) -> bool {
    match before {
        Some(b) => s.talk_seq == b.talk_seq,
        None => s.talk_seq is None,
    }
}

proof fn put_by_place(r: RosterView, s: ServerView)
    requires
        roster_wf(r),
    ensures
        only_one_server_changes(r, crate::roster::with_server(r, s), s.server_id),
        forall|i: int|
            0 <= i < crate::roster::with_server(r, s).servers.len() && (
            #[trigger] crate::roster::with_server(r, s).servers[i]).server_id == s.server_id ==> i
                == server_at(r, s.server_id) && crate::roster::with_server(r, s).servers[i] == s,
        server(r, s.server_id) == match known_at(r, server_at(r, s.server_id)) {
            Some(b) => b,
            None => crate::roster::unheard(s.server_id),
        },
        roster_wf(crate::roster::with_server(r, s)),
{
    let w = crate::roster::with_server(r, s);
    let at = server_at(r, s.server_id);
    servers_are_kept_apart(r, s, s.server_id);
    if has_server(r, s.server_id) {
        assert(r.servers[at].server_id == s.server_id);
        assert(w.servers[at].server_id == s.server_id);
    } else {
        assert(w.servers[at] == s);
        assert forall|i: int| 0 <= i < r.servers.len() implies (#[trigger] r.servers[i]).server_id
            != s.server_id by {}
    }
}

/// A roster push puts the list, the time and the number in place of those
/// before it, for its server alone; what graphs and orientations said stays.
pub proof fn a_roster_push_by_place(r: RosterView, p: RosterPush, now: u64, i: int)
    requires
        roster_wf(r),
    ensures
        ({
            let after = pushed(r, Push::Roster(p), now);
            &&& only_one_server_changes(r, after, p.server_id@)
            &&& 0 <= i < after.servers.len() && after.servers[i].server_id == p.server_id@ ==> {
                let s = after.servers[i];
                &&& s.eligible == p.eligible.deep_view()
                &&& s.received == Some(now)
                &&& s.roster_seq == Some(p.seq)
                &&& same_graph(s, known_at(r, i))
                &&& same_yaws(s, known_at(r, i))
                &&& same_talk(s, known_at(r, i))
            }
        }),
{
    let s = crate::roster::roster_taken(
        server(r, p.server_id@),
        p.seq,
        p.eligible.deep_view(),
        now,
    );
    named(r, p.server_id@);
    put_by_place(r, s);
}

proof fn named(r: RosterView, server_id: Seq<char>)
    ensures
        server(r, server_id).server_id == server_id,
{
    if has_server(r, server_id) {
        assert(r.servers[server_at(r, server_id)].server_id == server_id);
    }
}

/// A graph push puts the graph and its number in place of those before it, for
/// its server alone; the roster and its time stay.
pub proof fn a_graph_push_by_place(r: RosterView, p: GraphPush, now: u64, i: int)
    requires
        roster_wf(r),
    ensures
        ({
            let after = pushed(r, Push::Graph(p), now);
            &&& only_one_server_changes(r, after, p.server_id@)
            &&& 0 <= i < after.servers.len() && after.servers[i].server_id == p.server_id@ ==> {
                let s = after.servers[i];
                &&& s.listeners == p.listeners.deep_view()
                &&& s.graph_seq == Some(p.seq)
                &&& same_roster(s, known_at(r, i))
                &&& same_yaws(s, known_at(r, i))
                &&& same_talk(s, known_at(r, i))
            }
        }),
{
    let s = crate::roster::graph_taken(server(r, p.server_id@), p.seq, p.listeners.deep_view());
    named(r, p.server_id@);
    put_by_place(r, s);
}

/// A push of orientations puts them and their number in place of those before
/// them, for its server alone.
pub proof fn a_yaw_push_by_place(r: RosterView, p: YawPush, now: u64, i: int)
    requires
        roster_wf(r),
    ensures
        ({
            let after = pushed(r, Push::Yaw(p), now);
            &&& only_one_server_changes(r, after, p.server_id@)
            &&& 0 <= i < after.servers.len() && after.servers[i].server_id == p.server_id@ ==> {
                let s = after.servers[i];
                &&& s.yaws == p.yaws.deep_view()
                &&& s.yaw_seq == Some(p.seq)
                &&& same_roster(s, known_at(r, i))
                &&& same_graph(s, known_at(r, i))
                &&& same_talk(s, known_at(r, i))
            }
        }),
{
    let s = crate::roster::yaws_taken(server(r, p.server_id@), p.seq, p.yaws.deep_view());
    named(r, p.server_id@);
    put_by_place(r, s);
}

/// A push of the talk key leaves its number, for its server alone.
pub proof fn a_talk_push_by_place(r: RosterView, p: TalkPush, now: u64, i: int)
    requires
        roster_wf(r),
    ensures
        ({
            let after = pushed(r, Push::Talk(p), now);
            &&& only_one_server_changes(r, after, p.server_id@)
            &&& 0 <= i < after.servers.len() && after.servers[i].server_id == p.server_id@ ==> {
                let s = after.servers[i];
                &&& s.talk_seq == Some(p.seq)
                &&& same_roster(s, known_at(r, i))
                &&& same_graph(s, known_at(r, i))
                &&& same_yaws(s, known_at(r, i))
            }
        }),
{
    let s = crate::roster::talk_taken(server(r, p.server_id@), p.seq);
    named(r, p.server_id@);
    put_by_place(r, s);
}

/// A push comes too late exactly if its server has taken one of its kind with
/// the same number or a greater one.
pub proof fn lateness_by_place(r: RosterView, push: Push)
    requires
        roster_wf(r),
    ensures
        too_late(r, push) <==> exists|i: int|
            0 <= i < r.servers.len() && match push {
                Push::Roster(p) => (#[trigger] r.servers[i]).server_id == p.server_id@ && (
                r.servers[i].roster_seq matches Some(n) && p.seq <= n),
                Push::Graph(p) => r.servers[i].server_id == p.server_id@ && (
                r.servers[i].graph_seq matches Some(n) && p.seq <= n),
                Push::Yaw(p) => r.servers[i].server_id == p.server_id@ && (
                r.servers[i].yaw_seq matches Some(n) && p.seq <= n),
                Push::Talk(p) => r.servers[i].server_id == p.server_id@ && (
                r.servers[i].talk_seq matches Some(n) && p.seq <= n),
            },
{
    let id = match push {
        Push::Roster(p) => p.server_id@,
        Push::Graph(p) => p.server_id@,
        Push::Yaw(p) => p.server_id@,
        Push::Talk(p) => p.server_id@,
    };
    if has_server(r, id) {
        let at = server_at(r, id);
        assert(r.servers[at].server_id == id);
    }
}

/// A player may connect to a server exactly if the last roster of that server
/// lists the player, and the whitelist does too where there is one.
pub proof fn eligibility_by_place(r: RosterView, server_id: Seq<char>, id: Seq<char>)
    requires
        roster_wf(r),
    ensures
        eligible(r, server_id, id) <==> (exists|i: int, k: int|
            0 <= i < r.servers.len() && (#[trigger] r.servers[i]).server_id == server_id && 0 <= k
                < r.servers[i].eligible.len() && (#[trigger] r.servers[i].eligible[k]) == id) && (
        r.whitelist.len() == 0 || exists|k: int|
            0 <= k < r.whitelist.len() && (#[trigger] r.whitelist[k]) == id),
{
    if has_server(r, server_id) {
        let at = server_at(r, server_id);
        assert(r.servers[at].server_id == server_id);
        if r.servers[at].eligible.contains(id) {
            let k = choose|k: int|
                0 <= k < r.servers[at].eligible.len() && r.servers[at].eligible[k] == id;
            assert(r.servers[at].eligible[k] == id);
        }
    }
}

/// Whether the server at place `i` says with entry `k`, its first of `id`, how
/// `id` is oriented, while its roster is in force.
pub open spec fn orients(r: RosterView, i: int, k: int, id: Seq<char>, now: u64) -> bool {
    &&& 0 <= i < r.servers.len()
    &&& r.servers[i].received matches Some(t) && now <= t + ROSTER_TTL_S
    &&& 0 <= k < r.servers[i].yaws.len()
    &&& r.servers[i].yaws[k].0 == id
    &&& forall|m: int| 0 <= m < k ==> (#[trigger] r.servers[i].yaws[m]).0 != id
}

proof fn yaw_is_first(yaws: Seq<(Seq<char>, u16)>, id: Seq<char>)
    ensures
        match yaw_in(yaws, id) {
            Some(deg) => exists|k: int|
                0 <= k < yaws.len() && (#[trigger] yaws[k]) == (id, deg) && forall|m: int|
                    0 <= m < k ==> (#[trigger] yaws[m]).0 != id,
            None => forall|m: int| 0 <= m < yaws.len() ==> (#[trigger] yaws[m]).0 != id,
        },
    decreases yaws.len(),
{
    if yaws.len() > 0 {
        if yaws[0].0 == id {
            assert(yaws[0] == (id, yaws[0].1));
        } else {
            let rest = yaws.drop_first();
            yaw_is_first(rest, id);
            match yaw_in(rest, id) {
                Some(deg) => {
                    let k = choose|k: int|
                        0 <= k < rest.len() && (#[trigger] rest[k]) == (id, deg) && forall|m: int|
                            0 <= m < k ==> (#[trigger] rest[m]).0 != id;
                    assert(yaws[k + 1] == (id, deg));
                    assert forall|m: int| 0 <= m < k + 1 implies (#[trigger] yaws[m]).0 != id by {
                        if m > 0 {
                            assert(rest[m - 1].0 != id);
                        }
                    }
                },
                None => {
                    assert forall|m: int| 0 <= m < yaws.len() implies (#[trigger] yaws[m]).0 != id by {
                        if m > 0 {
                            assert(rest[m - 1].0 != id);
                        }
                    }
                },
            }
        }
    }
}

proof fn yaw_by_place_from(r: RosterView, id: Seq<char>, now: u64, from: int, i: int, k: int)
    requires
        0 <= from <= i,
        orients(r, i, k, id, now),
        forall|j: int, m: int| from <= j < i ==> !#[trigger] orients(r, j, m, id, now),
    ensures
        yaw_from(r, id, now, from) == Some(r.servers[i].yaws[k].1),
    decreases i - from,
{
    let yaws = r.servers[from].yaws;
    yaw_is_first(yaws, id);
    if from < i {
        if in_force(r.servers[from], now) && yaw_in(yaws, id) is Some {
            let m = choose|m: int|
                0 <= m < yaws.len() && (#[trigger] yaws[m]) == (id, yaw_in(yaws, id)->0) && forall|n: int|
                    0 <= n < m ==> (#[trigger] yaws[n]).0 != id;
            assert(orients(r, from, m, id, now));
        }
        yaw_by_place_from(r, id, now, from + 1, i, k);
    } else {
        let deg = yaws[k].1;
        assert(yaw_in(yaws, id) is Some);
        let m = choose|m: int|
            0 <= m < yaws.len() && (#[trigger] yaws[m]) == (id, yaw_in(yaws, id)->0) && forall|n: int|
                0 <= n < m ==> (#[trigger] yaws[n]).0 != id;
        if m < k {
            assert(r.servers[i].yaws[m].0 != id);
        }
        if k < m {
            assert(yaws[k].0 != id);
        }
    }
}

proof fn no_yaw_from(r: RosterView, id: Seq<char>, now: u64, from: int)
    requires
        0 <= from,
        forall|j: int, m: int| !#[trigger] orients(r, j, m, id, now),
    ensures
        yaw_from(r, id, now, from) is None,
    decreases r.servers.len() - from,
{
    if from < r.servers.len() {
        let yaws = r.servers[from].yaws;
        yaw_is_first(yaws, id);
        if in_force(r.servers[from], now) && yaw_in(yaws, id) is Some {
            let m = choose|m: int|
                0 <= m < yaws.len() && (#[trigger] yaws[m]) == (id, yaw_in(yaws, id)->0) && forall|n: int|
                    0 <= n < m ==> (#[trigger] yaws[n]).0 != id;
            assert(orients(r, from, m, id, now));
        }
        no_yaw_from(r, id, now, from + 1);
    }
}

/// A listener is oriented as the first server says that is in force and says
/// anything; where none does, it is not known how.
pub proof fn orientation_by_place(r: RosterView, id: Seq<char>, now: u64, i: int, k: int)
    ensures
        orients(r, i, k, id, now) && (forall|j: int, m: int|
            0 <= j < i ==> !#[trigger] orients(r, j, m, id, now)) ==> yaw_from(r, id, now, 0) == Some(
            r.servers[i].yaws[k].1,
        ),
        (forall|j: int, m: int| !#[trigger] orients(r, j, m, id, now)) ==> yaw_from(r, id, now, 0)
            is None,
{
    if orients(r, i, k, id, now) && (forall|j: int, m: int|
        0 <= j < i ==> !#[trigger] orients(r, j, m, id, now)) {
        yaw_by_place_from(r, id, now, 0, i, k);
    }
    if forall|j: int, m: int| !#[trigger] orients(r, j, m, id, now) {
        no_yaw_from(r, id, now, 0);
    }
}

/// Whether some effect is the right order for `id`.
pub open spec fn ordered_rightly(
    r: RosterView,
    id: Seq<char>,
    now: u64,
    effects: Seq<EffectView>,
) -> bool {
    exists|n: int| 0 <= n < effects.len() && right_order(r, id, now, #[trigger] effects[n])
}

/// Whether some effect tells `id` rightly what `id` may hear.
pub open spec fn told_rightly(
    r: RosterView,
    id: Seq<char>,
    now: u64,
    effects: Seq<EffectView>,
) -> bool {
    exists|n: int| 0 <= n < effects.len() && right_news(r, id, now, #[trigger] effects[n])
}

/// Whether an effect is the right order for one of `ids`, or, where there is
/// news, tells one of them rightly what may be heard.
pub open spec fn accounted(
    r: RosterView,
    ids: Set<Seq<char>>,
    now: u64,
    e: EffectView,
    news: bool,
) -> bool {
    exists|id: Seq<char>|
        #[trigger] ids.contains(id) && (right_order(r, id, now, e) || (news && right_news(
            r,
            id,
            now,
            e,
        )))
}

/// Whether every effect is the right order for one of `ids`, or, where there
/// is news, tells one of them rightly what may be heard.
pub open spec fn nothing_else(
    r: RosterView,
    ids: Set<Seq<char>>,
    now: u64,
    effects: Seq<EffectView>,
    news: bool,
) -> bool {
    forall|n: int|
        0 <= n < effects.len() ==> accounted(r, ids, now, #[trigger] effects[n], news)
}

/// The names in a list.
pub open spec fn listed(ids: Seq<Seq<char>>) -> Set<Seq<char>> {
    Set::new(|id: Seq<char>| ids.contains(id))
}

/// The names of the listeners in a graph.
pub open spec fn listening(listeners: Seq<ListenerView>) -> Set<Seq<char>> {
    Set::new(
        |id: Seq<char>|
            exists|k: int| 0 <= k < listeners.len() && (#[trigger] listeners[k]).id == id,
    )
}

proof fn part_of(
    r: RosterView,
    id: Seq<char>,
    now: u64,
    part: Seq<EffectView>,
    whole: Seq<EffectView>,
    shift: int,
)
    requires
        0 <= shift,
        shift + part.len() <= whole.len(),
        forall|n: int| 0 <= n < part.len() ==> whole[shift + n] == #[trigger] part[n],
    ensures
        ordered_rightly(r, id, now, part) ==> ordered_rightly(r, id, now, whole),
        told_rightly(r, id, now, part) ==> told_rightly(r, id, now, whole),
{
    if ordered_rightly(r, id, now, part) {
        let n = choose|n: int| 0 <= n < part.len() && right_order(r, id, now, #[trigger] part[n]);
        assert(right_order(r, id, now, whole[shift + n]));
    }
    if told_rightly(r, id, now, part) {
        let n = choose|n: int| 0 <= n < part.len() && right_news(r, id, now, #[trigger] part[n]);
        assert(right_news(r, id, now, whole[shift + n]));
    }
}

proof fn one_more(
    r: RosterView,
    ids: Set<Seq<char>>,
    now: u64,
    effects: Seq<EffectView>,
    news: bool,
    e: EffectView,
    id: Seq<char>,
)
    requires
        nothing_else(r, ids, now, effects, news),
        ids.contains(id),
        right_order(r, id, now, e) || (news && right_news(r, id, now, e)),
    ensures
        nothing_else(r, ids, now, effects.push(e), news),
{
    let all = effects.push(e);
    assert(accounted(r, ids, now, e, news));
    assert forall|n: int| 0 <= n < all.len() implies accounted(
        r,
        ids,
        now,
        #[trigger] all[n],
        news,
    ) by {
        if n < effects.len() {
            assert(all[n] == effects[n]);
        }
    }
}

proof fn wider(
    r: RosterView,
    ids: Set<Seq<char>>,
    more: Set<Seq<char>>,
    now: u64,
    effects: Seq<EffectView>,
    news: bool,
)
    requires
        nothing_else(r, ids, now, effects, news),
        ids.subset_of(more),
    ensures
        nothing_else(r, more, now, effects, news),
{
    assert forall|n: int| 0 <= n < effects.len() implies accounted(
        r,
        more,
        now,
        #[trigger] effects[n],
        news,
    ) by {
        assert(accounted(r, ids, now, effects[n], news));
        let who = choose|who: Seq<char>|
            #[trigger] ids.contains(who) && (right_order(r, who, now, effects[n]) || (news
                && right_news(r, who, now, effects[n])));
        assert(more.contains(who));
    }
}

proof fn both(
    r: RosterView,
    ids: Set<Seq<char>>,
    now: u64,
    a: Seq<EffectView>,
    b: Seq<EffectView>,
    news: bool,
)
    requires
        nothing_else(r, ids, now, a, news),
        nothing_else(r, ids, now, b, news),
    ensures
        nothing_else(r, ids, now, a + b, news),
    decreases b.len(),
{
    if b.len() == 0 {
        assert(a + b =~= a);
    } else {
        let init = b.drop_last();
        let last = b[b.len() - 1];
        assert forall|n: int| 0 <= n < init.len() implies accounted(
            r,
            ids,
            now,
            #[trigger] init[n],
            news,
        ) by {
            assert(init[n] == b[n]);
        }
        both(r, ids, now, a, init, news);
        assert(accounted(r, ids, now, b[b.len() - 1], news));
        let who = choose|who: Seq<char>|
            #[trigger] ids.contains(who) && (right_order(r, who, now, last) || (news && right_news(
                r,
                who,
                now,
                last,
            )));
        one_more(r, ids, now, a + init, news, last, who);
        assert((a + init).push(last) =~= a + b);
    }
}

proof fn drops_by_place(r: RosterView, before: Seq<Seq<char>>, now: u64, at: int)
    requires
        0 <= at < r.servers.len(),
    ensures
        nothing_else(r, listed(before), now, drops(r, before, now, at), false),
        forall|k: int|
            0 <= k < before.len() && r.revoke_on_death && !r.servers[at].eligible.contains(
                #[trigger] before[k],
            ) ==> ordered_rightly(r, before[k], now, drops(r, before, now, at)),
    decreases before.len(),
{
    let all = drops(r, before, now, at);
    if before.len() > 0 {
        let init = before.drop_last();
        let rest = drops(r, init, now, at);
        let last = before[before.len() - 1];
        drops_by_place(r, init, now, at);
        assert(listed(init).subset_of(listed(before))) by {
            assert forall|id: Seq<char>| #[trigger] listed(init).contains(id) implies listed(
                before,
            ).contains(id) by {
                let k = choose|k: int| 0 <= k < init.len() && init[k] == id;
                assert(before[k] == id);
            }
        }
        wider(r, listed(init), listed(before), now, rest, false);
        settling_is_right(r, last, now);
        assert(listed(before).contains(last));
        one_more(r, listed(before), now, rest, false, settled(r, last, now), last);
        assert forall|k: int|
            0 <= k < before.len() && r.revoke_on_death && !r.servers[at].eligible.contains(
                #[trigger] before[k],
            ) implies ordered_rightly(r, before[k], now, all) by {
            if k < init.len() {
                assert(init[k] == before[k]);
                part_of(r, before[k], now, rest, all, 0);
            } else {
                assert(right_order(r, last, now, all[rest.len() as int]));
            }
        }
    }
}

proof fn subscription_settles(r: RosterView, id: Seq<char>, now: u64, at: int)
    requires
        source(r, id, now) == Some(at),
    ensures
        subscription(id, hears_in(r.servers[at].listeners, id)) == settled(r, id, now),
        hears_in(r.servers[at].listeners, id) == audible(r, id, now),
{
}

proof fn listening_grows(listeners: Seq<ListenerView>)
    requires
        listeners.len() > 0,
    ensures
        listening(listeners.drop_last()).subset_of(listening(listeners)),
        listening(listeners).contains(listeners.last().id),
{
    let init = listeners.drop_last();
    assert(listeners[listeners.len() - 1].id == listeners.last().id);
    assert forall|id: Seq<char>| #[trigger] listening(init).contains(id) implies listening(
        listeners,
    ).contains(id) by {
        let k = choose|k: int| 0 <= k < init.len() && (#[trigger] init[k]).id == id;
        assert(listeners[k].id == id);
    }
}

proof fn resumes_by_place(r: RosterView, listeners: Seq<ListenerView>, now: u64, at: int)
    ensures
        nothing_else(r, listening(listeners), now, resumes(r, listeners, now, at), false),
        forall|k: int|
            0 <= k < listeners.len() && source(r, (#[trigger] listeners[k]).id, now) == Some(at)
                ==> ordered_rightly(r, listeners[k].id, now, resumes(r, listeners, now, at)),
    decreases listeners.len(),
{
    let all = resumes(r, listeners, now, at);
    if listeners.len() > 0 {
        let init = listeners.drop_last();
        let rest = resumes(r, init, now, at);
        let id = listeners.last().id;
        let ids = listening(listeners);
        resumes_by_place(r, init, now, at);
        listening_grows(listeners);
        wider(r, listening(init), ids, now, rest, false);
        settling_is_right(r, id, now);
        if source(r, id, now) == Some(at) {
            subscription_settles(r, id, now, at);
            one_more(r, ids, now, rest, false, settled(r, id, now), id);
        }
        assert forall|k: int|
            0 <= k < listeners.len() && source(r, (#[trigger] listeners[k]).id, now) == Some(
                at,
            ) implies ordered_rightly(r, listeners[k].id, now, all) by {
            if k < init.len() {
                assert(init[k] == listeners[k]);
                part_of(r, listeners[k].id, now, rest, all, 0);
            } else {
                assert(right_order(r, id, now, all[rest.len() as int]));
            }
        }
    }
}

proof fn news_is_right(r: RosterView, id: Seq<char>, now: u64)
    ensures
        right_news(
            r,
            id,
            now,
            EffectView::Tell(id, ServerMsgView::Graph { hears: audible(r, id, now) }),
        ),
{
    what_is_audible_may_be_heard(r, id, now);
}

proof fn vanished_by_place(r: RosterView, before: Seq<ListenerView>, now: u64, at: int)
    ensures
        nothing_else(r, listening(before), now, vanished(r, before, now, at), true),
        forall|k: int|
            0 <= k < before.len() && !listens(r.servers[at], (#[trigger] before[k]).id)
                ==> ordered_rightly(r, before[k].id, now, vanished(r, before, now, at))
                && told_rightly(r, before[k].id, now, vanished(r, before, now, at)),
    decreases before.len(),
{
    let all = vanished(r, before, now, at);
    if before.len() > 0 {
        let init = before.drop_last();
        let rest = vanished(r, init, now, at);
        let id = before.last().id;
        let ids = listening(before);
        let tell = EffectView::Tell(id, ServerMsgView::Graph { hears: audible(r, id, now) });
        vanished_by_place(r, init, now, at);
        listening_grows(before);
        wider(r, listening(init), ids, now, rest, true);
        settling_is_right(r, id, now);
        news_is_right(r, id, now);
        one_more(r, ids, now, rest, true, tell, id);
        one_more(r, ids, now, rest.push(tell), true, settled(r, id, now), id);
        assert forall|k: int|
            0 <= k < before.len() && !listens(
                r.servers[at],
                (#[trigger] before[k]).id,
            ) implies ordered_rightly(r, before[k].id, now, all) && told_rightly(
            r,
            before[k].id,
            now,
            all,
        ) by {
            if k < init.len() {
                assert(init[k] == before[k]);
                part_of(r, before[k].id, now, rest, all, 0);
            } else {
                assert(all[rest.len() as int] == tell);
                assert(right_news(r, id, now, all[rest.len() as int]));
                assert(right_order(r, id, now, all[rest.len() as int + 1]));
            }
        }
    }
}

proof fn graph_news_by_place(r: RosterView, listeners: Seq<ListenerView>, now: u64, at: int)
    ensures
        nothing_else(r, listening(listeners), now, graph_news(r, listeners, now, at), true),
        forall|k: int|
            0 <= k < listeners.len() && source(r, (#[trigger] listeners[k]).id, now) == Some(at)
                ==> ordered_rightly(r, listeners[k].id, now, graph_news(r, listeners, now, at))
                && told_rightly(r, listeners[k].id, now, graph_news(r, listeners, now, at)),
    decreases listeners.len(),
{
    let all = graph_news(r, listeners, now, at);
    if listeners.len() > 0 {
        let init = listeners.drop_last();
        let rest = graph_news(r, init, now, at);
        let id = listeners.last().id;
        let ids = listening(listeners);
        graph_news_by_place(r, init, now, at);
        listening_grows(listeners);
        wider(r, listening(init), ids, now, rest, true);
        settling_is_right(r, id, now);
        news_is_right(r, id, now);
        let tell = EffectView::Tell(id, ServerMsgView::Graph { hears: audible(r, id, now) });
        if source(r, id, now) == Some(at) {
            subscription_settles(r, id, now, at);
            one_more(r, ids, now, rest, true, tell, id);
            one_more(r, ids, now, rest.push(tell), true, settled(r, id, now), id);
        }
        assert forall|k: int|
            0 <= k < listeners.len() && source(r, (#[trigger] listeners[k]).id, now) == Some(
                at,
            ) implies ordered_rightly(r, listeners[k].id, now, all) && told_rightly(
            r,
            listeners[k].id,
            now,
            all,
        ) by {
            if k < init.len() {
                assert(init[k] == listeners[k]);
                part_of(r, listeners[k].id, now, rest, all, 0);
            } else {
                assert(all[rest.len() as int] == tell);
                assert(right_news(r, id, now, all[rest.len() as int]));
                assert(right_order(r, id, now, all[rest.len() as int + 1]));
            }
        }
    }
}

proof fn first_is_source(r: RosterView, i: int, id: Seq<char>, now: u64)
    requires
        first_to_let_hear(r, i, id, now),
    ensures
        source(r, id, now) == Some(i),
{
    source_is_first(r, id, now, 0);
    assert(lets_hear(r, i, id, now));
    let j = source(r, id, now)->0;
    if j < i {
        assert(!lets_hear(r, j, id, now));
    }
    if i < j {
        assert(!lets_hear(r, i, id, now));
    }
}

proof fn place_after(r: RosterView, push: Push, now: u64, id: Seq<char>)
    requires
        roster_wf(r),
        id == crate::roster::numbered(r, push).0,
    ensures
        ({
            let after = pushed(r, push, now);
            let at = server_at(r, id);
            &&& 0 <= at < after.servers.len()
            &&& after.servers[at].server_id == id
            &&& roster_wf(after)
            &&& forall|i: int|
                0 <= i < after.servers.len() && (#[trigger] after.servers[i]).server_id == id ==> i
                    == at
        }),
{
    let s = server(r, id);
    named(r, id);
    match push {
        Push::Roster(p) => {
            put_by_place(r, crate::roster::roster_taken(s, p.seq, p.eligible.deep_view(), now));
        },
        Push::Graph(p) => {
            put_by_place(r, crate::roster::graph_taken(s, p.seq, p.listeners.deep_view()));
        },
        Push::Yaw(p) => {
            put_by_place(r, crate::roster::yaws_taken(s, p.seq, p.yaws.deep_view()));
        },
        Push::Talk(p) => {
            put_by_place(r, crate::roster::talk_taken(s, p.seq));
        },
    }
    let after = pushed(r, push, now);
    let i = choose|i: int|
        0 <= i < after.servers.len() && (#[trigger] after.servers[i]).server_id == id;
    assert(after.servers[i].server_id == id);
}

/// What a roster push of the server at place `i` leads to. Where leaving the
/// roster takes the right to hear, each player whom it drops is ordered only
/// what that player still may hear; each listener who may hear by this server
/// is ordered it again. There are no other orders, and nobody is told anything.
pub proof fn what_a_roster_push_leads_to(r: RosterView, p: RosterPush, now: u64, i: int, k: int)
    requires
        roster_wf(r),
    ensures
        ({
            let after = pushed(r, Push::Roster(p), now);
            let news = push_news(r, Push::Roster(p), now);
            &&& 0 <= i < r.servers.len() && r.servers[i].server_id == p.server_id@ ==> {
                let s = r.servers[i];
                &&& r.revoke_on_death && 0 <= k < s.eligible.len() && !p.eligible.deep_view().contains(
                    s.eligible[k],
                ) ==> ordered_rightly(after, s.eligible[k], now, news)
                &&& 0 <= k < s.listeners.len() && first_to_let_hear(
                    after,
                    i,
                    s.listeners[k].id,
                    now,
                ) ==> ordered_rightly(after, s.listeners[k].id, now, news)
                &&& nothing_else(
                    after,
                    listed(s.eligible).union(listening(s.listeners)),
                    now,
                    news,
                    false,
                )
            }
            &&& (forall|j: int|
                0 <= j < r.servers.len() ==> (#[trigger] r.servers[j]).server_id != p.server_id@)
                ==> news.len() == 0
        }),
{
    let push = Push::Roster(p);
    let after = pushed(r, push, now);
    let news = push_news(r, push, now);
    let at = server_at(r, p.server_id@);
    let before = server(r, p.server_id@);
    place_after(r, push, now, p.server_id@);
    let a = drops(after, before.eligible, now, at);
    let b = resumes(after, before.listeners, now, at);
    assert(news == a + b);
    drops_by_place(after, before.eligible, now, at);
    resumes_by_place(after, before.listeners, now, at);
    if 0 <= i < r.servers.len() && r.servers[i].server_id == p.server_id@ {
        a_roster_push_by_place(r, p, now, i);
        assert(after.servers[i].server_id == p.server_id@);
        assert(i == at);
        let s = r.servers[i];
        assert(has_server(r, p.server_id@));
        assert(before == s);
        if r.revoke_on_death && 0 <= k < s.eligible.len() && !p.eligible.deep_view().contains(
            s.eligible[k],
        ) {
            part_of(after, s.eligible[k], now, a, news, 0);
        }
        if 0 <= k < s.listeners.len() && first_to_let_hear(after, i, s.listeners[k].id, now) {
            first_is_source(after, i, s.listeners[k].id, now);
            part_of(after, s.listeners[k].id, now, b, news, a.len() as int);
        }
        let ids = listed(s.eligible).union(listening(s.listeners));
        wider(after, listed(s.eligible), ids, now, a, false);
        wider(after, listening(s.listeners), ids, now, b, false);
        both(after, ids, now, a, b, false);
    }
}

/// What a graph push leads to. Each listener in it who may hear by its server
/// is told what the push gives for that listener, and ordered it, the nearest
/// first. Each who was in the graph before and is not any more is told and
/// ordered what that player still may hear. There is nothing else.
pub proof fn what_a_graph_push_leads_to(r: RosterView, p: GraphPush, now: u64, i: int, k: int)
    requires
        roster_wf(r),
    ensures
        ({
            let after = pushed(r, Push::Graph(p), now);
            let news = push_news(r, Push::Graph(p), now);
            let graph = p.listeners.deep_view();
            let old = match known_at(r, i) {
                Some(s) => s.listeners,
                None => seq![],
            };
            0 <= i < after.servers.len() && after.servers[i].server_id == p.server_id@ ==> {
                &&& 0 <= k < graph.len() && first_to_let_hear(after, i, graph[k].id, now) ==> {
                    &&& ordered_rightly(after, graph[k].id, now, news)
                    &&& first_entry(graph, k, graph[k].id) ==> exists|n: int|
                        0 <= n < news.len() && (#[trigger] news[n]) == EffectView::Tell(
                            graph[k].id,
                            ServerMsgView::Graph { hears: graph[k].hears },
                        )
                }
                &&& 0 <= k < old.len() && !listening(graph).contains(old[k].id) ==> {
                    &&& ordered_rightly(after, old[k].id, now, news)
                    &&& told_rightly(after, old[k].id, now, news)
                }
                &&& nothing_else(after, listening(old).union(listening(graph)), now, news, true)
            }
        }),
{
    let push = Push::Graph(p);
    let after = pushed(r, push, now);
    let news = push_news(r, push, now);
    let graph = p.listeners.deep_view();
    let at = server_at(r, p.server_id@);
    let before = server(r, p.server_id@).listeners;
    place_after(r, push, now, p.server_id@);
    let a = vanished(after, before, now, at);
    let b = graph_news(after, graph, now, at);
    assert(news == a + b);
    vanished_by_place(after, before, now, at);
    graph_news_by_place(after, graph, now, at);
    if 0 <= i < after.servers.len() && after.servers[i].server_id == p.server_id@ {
        let old = match known_at(r, i) {
            Some(s) => s.listeners,
            None => seq![],
        };
        a_graph_push_by_place(r, p, now, i);
        assert(i == at);
        if has_server(r, p.server_id@) {
            assert(r.servers[at].server_id == p.server_id@);
        }
        assert(before == old);
        assert(after.servers[i].listeners == graph);
        if 0 <= k < graph.len() && first_to_let_hear(after, i, graph[k].id, now) {
            let id = graph[k].id;
            first_is_source(after, i, id, now);
            assert(ordered_rightly(after, id, now, b) && told_rightly(after, id, now, b));
            part_of(after, id, now, b, news, a.len() as int);
            if first_entry(graph, k, id) {
                let n = choose|n: int|
                    0 <= n < news.len() && right_news(after, id, now, #[trigger] news[n]);
                what_is_audible_may_be_heard(after, id, now);
                the_first_server_says_who_is_heard(after, id, now, i, k);
                assert(news[n] == EffectView::Tell(
                    id,
                    ServerMsgView::Graph { hears: graph[k].hears },
                ));
            }
        }
        if 0 <= k < old.len() && !listening(graph).contains(old[k].id) {
            assert(!listens(after.servers[at], old[k].id));
            part_of(after, old[k].id, now, a, news, 0);
        }
        let ids = listening(old).union(listening(graph));
        wider(after, listening(old), ids, now, a, true);
        wider(after, listening(graph), ids, now, b, true);
        both(after, ids, now, a, b, true);
    }
}

/// Each listener in a push of orientations is told its own, in the order of
/// the push, and nothing else comes of it.
pub proof fn what_a_yaw_push_leads_to(r: RosterView, p: YawPush, now: u64, k: int)
    ensures
        push_news(r, Push::Yaw(p), now).len() == p.yaws@.len(),
        0 <= k < p.yaws@.len() ==> push_news(r, Push::Yaw(p), now)[k] == EffectView::Tell(
            p.yaws@[k].0@,
            ServerMsgView::Yaw { deg: p.yaws@[k].1 },
        ),
{
}

/// Who presses or lets go of the talk key is told which, and nothing else comes of it.
pub proof fn what_a_talk_push_leads_to(r: RosterView, p: TalkPush, now: u64)
    ensures
        push_news(r, Push::Talk(p), now).len() == 1,
        push_news(r, Push::Talk(p), now)[0] == EffectView::Tell(
            p.id@,
            ServerMsgView::Talk { on: p.talking },
        ),
{
}

proof fn settlements_by_place(r: RosterView, ids: Seq<Seq<char>>, now: u64)
    ensures
        nothing_else(r, listed(ids), now, settlements(r, ids, now), false),
        forall|k: int|
            0 <= k < ids.len() ==> ordered_rightly(
                r,
                #[trigger] ids[k],
                now,
                settlements(r, ids, now),
            ),
{
    let all = settlements(r, ids, now);
    assert forall|n: int| 0 <= n < all.len() implies accounted(
        r,
        listed(ids),
        now,
        #[trigger] all[n],
        false,
    ) by {
        settling_is_right(r, ids[n], now);
        assert(ids.contains(ids[n]));
        assert(listed(ids).contains(ids[n]));
        assert(right_order(r, ids[n], now, all[n]));
    }
    assert forall|k: int| 0 <= k < ids.len() implies ordered_rightly(
        r,
        #[trigger] ids[k],
        now,
        all,
    ) by {
        settling_is_right(r, ids[k], now);
        assert(right_order(r, ids[k], now, all[k]));
    }
}

/// The players of the first `n` servers whose last roster came more than
/// `ROSTER_TTL_S` seconds ago, or never: those on the roster or in the graph.
pub open spec fn forsaken(r: RosterView, now: u64, n: int) -> Set<Seq<char>> {
    Set::new(
        |id: Seq<char>|
            exists|i: int|
                0 <= i < n && !((#[trigger] r.servers[i]).received matches Some(t) && now <= t
                    + ROSTER_TTL_S) && (r.servers[i].eligible.contains(id) || listening(
                    r.servers[i].listeners,
                ).contains(id)),
    )
}

proof fn expiries_by_place(r: RosterView, now: u64, n: int)
    requires
        0 <= n <= r.servers.len(),
    ensures
        nothing_else(r, forsaken(r, now, n), now, expiries(r, now, n), false),
        forall|id: Seq<char>| #[trigger]
            forsaken(r, now, n).contains(id) ==> ordered_rightly(r, id, now, expiries(r, now, n)),
    decreases n,
{
    let all = expiries(r, now, n);
    if n > 0 {
        let rest = expiries(r, now, n - 1);
        let s = r.servers[n - 1];
        let ids = forsaken(r, now, n);
        expiries_by_place(r, now, n - 1);
        assert(forsaken(r, now, n - 1).subset_of(ids)) by {
            assert forall|id: Seq<char>| #[trigger] forsaken(r, now, n - 1).contains(
                id,
            ) implies ids.contains(id) by {
                let i = choose|i: int|
                    0 <= i < n - 1 && !((#[trigger] r.servers[i]).received matches Some(t) && now
                        <= t + ROSTER_TTL_S) && (r.servers[i].eligible.contains(id) || listening(
                        r.servers[i].listeners,
                    ).contains(id));
                assert(r.servers[i].eligible.contains(id) || listening(
                    r.servers[i].listeners,
                ).contains(id));
            }
        }
        wider(r, forsaken(r, now, n - 1), ids, now, rest, false);
        let names = listener_names(s.listeners);
        let a = settlements(r, s.eligible, now);
        let b = settlements(r, names, now);
        settlements_by_place(r, s.eligible, now);
        settlements_by_place(r, names, now);
        if !in_force(s, now) {
            assert(listed(s.eligible).subset_of(ids)) by {
                assert forall|id: Seq<char>| #[trigger] listed(s.eligible).contains(
                    id,
                ) implies ids.contains(id) by {
                    assert(r.servers[n - 1].eligible.contains(id));
                }
            }
            assert(listed(names).subset_of(ids)) by {
                assert forall|id: Seq<char>| #[trigger] listed(names).contains(
                    id,
                ) implies ids.contains(id) by {
                    let k = choose|k: int| 0 <= k < names.len() && names[k] == id;
                    assert(s.listeners[k].id == id);
                    assert(listening(r.servers[n - 1].listeners).contains(id));
                }
            }
            wider(r, listed(s.eligible), ids, now, a, false);
            wider(r, listed(names), ids, now, b, false);
            both(r, ids, now, rest, a, false);
            both(r, ids, now, rest + a, b, false);
        }
        assert forall|id: Seq<char>| #[trigger] ids.contains(id) implies ordered_rightly(
            r,
            id,
            now,
            all,
        ) by {
            let i = choose|i: int|
                0 <= i < n && !((#[trigger] r.servers[i]).received matches Some(t) && now <= t
                    + ROSTER_TTL_S) && (r.servers[i].eligible.contains(id) || listening(
                    r.servers[i].listeners,
                ).contains(id));
            if i < n - 1 {
                assert(r.servers[i].eligible.contains(id) || listening(
                    r.servers[i].listeners,
                ).contains(id));
                assert(forsaken(r, now, n - 1).contains(id));
                part_of(r, id, now, rest, all, 0);
            } else if s.eligible.contains(id) {
                let k = choose|k: int| 0 <= k < s.eligible.len() && s.eligible[k] == id;
                assert(ordered_rightly(r, s.eligible[k], now, a));
                part_of(r, id, now, a, all, rest.len() as int);
            } else {
                let k = choose|k: int|
                    0 <= k < s.listeners.len() && (#[trigger] s.listeners[k]).id == id;
                assert(names[k] == id);
                assert(ordered_rightly(r, names[k], now, b));
                part_of(r, id, now, b, all, (rest.len() + a.len()) as int);
            }
        }
    }
}

/// Every player on the roster or in the graph of a server whose last roster is
/// too old is ordered only what that player still may hear: nothing, unless
/// another server lets the player hear. To no one else anything is ordered.
pub proof fn what_expiry_leads_to(r: RosterView, now: u64)
    ensures
        forall|id: Seq<char>| #[trigger]
            forsaken(r, now, r.servers.len() as int).contains(id) ==> ordered_rightly(
                r,
                id,
                now,
                expiries(r, now, r.servers.len() as int),
            ),
        nothing_else(
            r,
            forsaken(r, now, r.servers.len() as int),
            now,
            expiries(r, now, r.servers.len() as int),
            false,
        ),
{
    expiries_by_place(r, now, r.servers.len() as int);
}

} // verus!
