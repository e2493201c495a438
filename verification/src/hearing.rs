//! What holds of rosters, graphs and forwarding taken together.
use crate::proto::{HeardView, ListenerView, ServerMsgView, ROSTER_TTL_S};
use crate::roster::{
    audible, drops, eligible, expiries, graph_news, graph_taken, has_server, hears_by, hears_in,
    in_force, listener_names, listens, names_of, nearest_first, numbered, push_news,
    pushed, rank, resumes, roster_taken, roster_wf, server, server_at, settled, settlements, source,
    source_from,
    subscription, talk_taken, too_late, unheard, vanished, with_server, yaws_taken, EffectView, Push,
    RosterView, ServerView,
};
use crate::sfu::{
    forwards, only_the_nearest_are_forwarded, silenced, subscribed,
    subscribed_is_sound, SessionView,
};
use crate::slots::{nearest, slots_wf};
use crate::state::SfuCommandView;
use vstd::prelude::*;

verus! {

/// What is put for a server is found for it, and every other server stays as it is.
pub proof fn servers_are_kept_apart(r: RosterView, s: ServerView, other: Seq<char>)
    requires
        roster_wf(r),
    ensures
        server(with_server(r, s), s.server_id) == s,
        server_at(with_server(r, s), s.server_id) == server_at(r, s.server_id),
        other != s.server_id ==> server(with_server(r, s), other) == server(r, other),
        roster_wf(with_server(r, s)),
{
    let w = with_server(r, s);
    let at = server_at(r, s.server_id);
    if has_server(r, s.server_id) {
        assert(r.servers[at].server_id == s.server_id);
    }
    assert(w.servers[at] == s);
    assert(roster_wf(w)) by {
        assert forall|i: int, k: int| 0 <= i < k < w.servers.len() implies (
        #[trigger] w.servers[i]).server_id != (#[trigger] w.servers[k]).server_id by {
            if k < r.servers.len() {
                assert(r.servers[i].server_id != r.servers[k].server_id);
            } else {
                assert(r.servers[i].server_id != s.server_id);
            }
        }
    }
    let p = server_at(w, s.server_id);
    assert(has_server(w, s.server_id));
    assert(w.servers[p].server_id == s.server_id);
    assert(p == at);
    if other == s.server_id {
    } else if has_server(r, other) {
        let q = server_at(r, other);
        assert(r.servers[q].server_id == other);
        assert(w.servers[q] == r.servers[q]);
        let q2 = server_at(w, other);
        assert(w.servers[q2].server_id == other);
        assert(q2 == q);
    } else if has_server(w, other) {
        let q2 = server_at(w, other);
        assert(w.servers[q2].server_id == other);
        assert(q2 < r.servers.len());
        assert(r.servers[q2].server_id == other);
    }
}

/// Whether two pushes are counted together: they are of one kind and from one server.
pub open spec fn counted_together(r: RosterView, p: Push, q: Push) -> bool {
    &&& numbered(r, p).0 == numbered(r, q).0
    &&& match (p, q) {
        (Push::Roster(_), Push::Roster(_)) => true,
        (Push::Graph(_), Push::Graph(_)) => true,
        (Push::Yaw(_), Push::Yaw(_)) => true,
        (Push::Talk(_), Push::Talk(_)) => true,
        (_, _) => false,
    }
}

/// Once a push has been taken, one of its kind from its server is taken only
/// with a greater number: neither the same one again nor an earlier one. Every
/// other push is taken or refused as before.
pub proof fn no_push_is_taken_twice(r: RosterView, p: Push, q: Push, now: u64)
    requires
        roster_wf(r),
    ensures
        counted_together(r, p, q) ==> (too_late(pushed(r, p, now), q) <==> numbered(r, q).1
            <= numbered(r, p).1),
        !counted_together(r, p, q) ==> too_late(pushed(r, p, now), q) == too_late(r, q),
{
    let from = numbered(r, p).0;
    let other = numbered(r, q).0;
    if has_server(r, from) {
        assert(r.servers[server_at(r, from)].server_id == from);
    }
    let s = server(r, from);
    let after = match p {
        Push::Roster(p) => roster_taken(s, p.seq, p.eligible.deep_view(), now),
        Push::Graph(p) => graph_taken(s, p.seq, p.listeners.deep_view()),
        Push::Yaw(p) => yaws_taken(s, p.seq, p.yaws.deep_view()),
        Push::Talk(p) => talk_taken(s, p.seq),
    };
    servers_are_kept_apart(r, after, other);
}

/// A roster replaces the one before it: exactly those on it may connect, of
/// them only those on the whitelist where there is one, and nothing is left of
/// the roster before. Other servers are not touched.
pub proof fn a_roster_replaces_the_last(
    r: RosterView,
    server_id: Seq<char>,
    seq: u64,
    ids: Seq<Seq<char>>,
    now: u64,
    id: Seq<char>,
    other: Seq<char>,
)
    requires
        roster_wf(r),
    ensures
        ({
            let after = with_server(r, roster_taken(server(r, server_id), seq, ids, now));
            &&& eligible(after, server_id, id) <==> ids.contains(id) && (r.whitelist.len() == 0
                || r.whitelist.contains(id))
            &&& other != server_id ==> eligible(after, other, id) == eligible(r, other, id)
        }),
{
    let s = roster_taken(server(r, server_id), seq, ids, now);
    if has_server(r, server_id) {
        assert(r.servers[server_at(r, server_id)].server_id == server_id);
    }
    servers_are_kept_apart(r, s, other);
}

/// Who is not on a whitelist may not connect; without a whitelist the roster alone decides.
pub proof fn a_whitelist_only_restricts(r: RosterView, server_id: Seq<char>, id: Seq<char>)
    ensures
        eligible(r, server_id, id) ==> server(r, server_id).eligible.contains(id),
        r.whitelist.len() > 0 && !r.whitelist.contains(id) ==> !eligible(r, server_id, id),
        r.whitelist.len() == 0 ==> eligible(r, server_id, id) == server(
            r,
            server_id,
        ).eligible.contains(id),
{
}

/// A roster is in force for `ROSTER_TTL_S` seconds and no longer.
pub proof fn a_roster_expires(s: ServerView, seq: u64, ids: Seq<Seq<char>>, came: u64, now: u64)
    ensures
        in_force(roster_taken(s, seq, ids, came), now) <==> now <= came + ROSTER_TTL_S,
        !in_force(unheard(s.server_id), now),
{
}

/// What there is to know of the server by which `id` may hear.
pub proof fn source_is_sound(r: RosterView, id: Seq<char>, now: u64, from: int)
    requires
        0 <= from,
    ensures
        source_from(r, id, now, from) matches Some(i) ==> from <= i < r.servers.len() && hears_by(
            r,
            r.servers[i],
            id,
            now,
        ),
        source_from(r, id, now, from) is None ==> forall|i: int|
            from <= i < r.servers.len() ==> !hears_by(r, #[trigger] r.servers[i], id, now),
    decreases r.servers.len() - from,
{
    if from < r.servers.len() && !hears_by(r, r.servers[from], id, now) {
        source_is_sound(r, id, now, from + 1);
    }
}

/// A listener of whom only servers with expired rosters speak hears nobody.
pub proof fn nothing_is_audible_after_expiry(r: RosterView, id: Seq<char>, now: u64)
    requires
        forall|i: int|
            0 <= i < r.servers.len() && listens(#[trigger] r.servers[i], id) ==> !in_force(
                r.servers[i],
                now,
            ),
    ensures
        source(r, id, now) is None,
        audible(r, id, now) == Seq::<HeardView>::empty(),
{
    source_is_sound(r, id, now, 0);
}

/// By a server whose roster is not in force nobody is told of voices and to
/// nobody anything is forwarded, whatever graph comes from it.
pub proof fn an_expired_server_forwards_nothing(
    r: RosterView,
    listeners: Seq<ListenerView>,
    now: u64,
    at: int,
)
    requires
        0 <= at < r.servers.len(),
        !in_force(r.servers[at], now),
    ensures
        graph_news(r, listeners, now, at) == Seq::<EffectView>::empty(),
        resumes(r, listeners, now, at) == Seq::<EffectView>::empty(),
    decreases listeners.len(),
{
    if listeners.len() > 0 {
        an_expired_server_forwards_nothing(r, listeners.drop_last(), now, at);
        source_is_sound(r, listeners.last().id, now, 0);
    }
}

proof fn expiry_reaches(r: RosterView, now: u64, i: int, id: Seq<char>, n: int)
    requires
        0 <= i < n <= r.servers.len(),
        !in_force(r.servers[i], now),
        r.servers[i].eligible.contains(id) || listens(r.servers[i], id),
    ensures
        expiries(r, now, n).contains(settled(r, id, now)),
    decreases n,
{
    let order = settled(r, id, now);
    let rest = expiries(r, now, n - 1);
    let all = expiries(r, now, n);
    let s = r.servers[n - 1];
    if i == n - 1 {
        let a = settlements(r, s.eligible, now);
        let b = settlements(r, listener_names(s.listeners), now);
        if s.eligible.contains(id) {
            let k = choose|k: int| 0 <= k < s.eligible.len() && s.eligible[k] == id;
            assert(a[k] == order);
            assert(all[rest.len() + k] == order);
        } else {
            let k = choose|k: int| 0 <= k < s.listeners.len() && (#[trigger] s.listeners[k]).id == id;
            assert(b[k] == order);
            assert(all[rest.len() + a.len() + k] == order);
        }
    } else {
        expiry_reaches(r, now, i, id, n - 1);
        let k = choose|k: int| 0 <= k < rest.len() && rest[k] == order;
        assert(all[k] == order);
    }
}

/// When a roster is not in force any more, what its server had forwarded stops
/// for every player of that server, on its roster or in its graph: the player
/// is sent nothing but what a server in force lets hear.
pub proof fn expiry_silences_everyone(r: RosterView, now: u64, i: int, id: Seq<char>)
    requires
        0 <= i < r.servers.len(),
        !in_force(r.servers[i], now),
        r.servers[i].eligible.contains(id) || listens(r.servers[i], id),
    ensures
        expiries(r, now, r.servers.len() as int).contains(settled(r, id, now)),
{
    expiry_reaches(r, now, i, id, r.servers.len() as int);
}

/// Where the settings say so, a player whom a roster drops may not hear by
/// that server any more, and what it had forwarded stops at once.
pub proof fn the_dropped_stop_hearing(
    r: RosterView,
    before: Seq<Seq<char>>,
    now: u64,
    at: int,
    id: Seq<char>,
)
    requires
        0 <= at < r.servers.len(),
        r.revoke_on_death,
        before.contains(id),
        !r.servers[at].eligible.contains(id),
    ensures
        !hears_by(r, r.servers[at], id, now),
        drops(r, before, now, at).contains(settled(r, id, now)),
    decreases before.len(),
{
    let order = settled(r, id, now);
    let rest = drops(r, before.drop_last(), now, at);
    let all = drops(r, before, now, at);
    if before.last() == id {
        assert(all[rest.len() as int] == order);
    } else {
        let k = choose|k: int| 0 <= k < before.len() && before[k] == id;
        assert(before.drop_last()[k] == id);
        the_dropped_stop_hearing(r, before.drop_last(), now, at, id);
        let n = choose|n: int| 0 <= n < rest.len() && rest[n] == order;
        assert(all[n] == order);
    }
}

/// A listener who is not in a server's graph any more may not hear by that
/// server, and what it had forwarded stops at once.
pub proof fn the_vanished_stop_hearing(
    r: RosterView,
    before: Seq<ListenerView>,
    now: u64,
    at: int,
    k: int,
)
    requires
        0 <= at < r.servers.len(),
        0 <= k < before.len(),
        !listens(r.servers[at], before[k].id),
    ensures
        !hears_by(r, r.servers[at], before[k].id, now),
        vanished(r, before, now, at).contains(settled(r, before[k].id, now)),
    decreases before.len(),
{
    let order = settled(r, before[k].id, now);
    let rest = vanished(r, before.drop_last(), now, at);
    let all = vanished(r, before, now, at);
    if k == before.len() - 1 {
        assert(all[rest.len() as int + 1] == order);
    } else {
        assert(before.drop_last()[k] == before[k]);
        the_vanished_stop_hearing(r, before.drop_last(), now, at, k);
        let n = choose|n: int| 0 <= n < rest.len() && rest[n] == order;
        assert(all[n] == order);
    }
}

/// A session once it has obeyed an order.
pub open spec fn ordered(s: SessionView, order: EffectView) -> SessionView {
    match order {
        EffectView::Order(SfuCommandView::SetSubscriptions { speakers, .. }) => subscribed(
            s,
            speakers,
        ),
        EffectView::Order(SfuCommandView::MuteAll { .. }) => silenced(s),
        _ => s,
    }
}

/// A session that has obeyed the order which puts it right is sent only voices
/// that a server in force lets its listener hear, and none where there is no
/// such server.
pub proof fn what_is_settled_is_audible(
    r: RosterView,
    s: SessionView,
    id: Seq<char>,
    now: u64,
    who: Seq<char>,
)
    requires
        slots_wf(s.slots),
        forwards(ordered(s, settled(r, id, now)), who),
    ensures
        source(r, id, now) matches Some(j) && in_force(r.servers[j], now) && hears_by(
            r,
            r.servers[j],
            id,
            now,
        ),
        exists|k: int|
            0 <= k < audible(r, id, now).len() && (#[trigger] audible(r, id, now)[k]).id == who
                && audible(r, id, now)[k].sub,
{
    source_is_sound(r, id, now, 0);
    if let Some(j) = source(r, id, now) {
        let hears = hears_in(r.servers[j].listeners, id);
        forwarded_voices_are_audible(s, hears, who);
        let k = choose|k: int| 0 <= k < hears.len() && (#[trigger] hears[k]).id == who && hears[k].sub;
        assert(audible(r, id, now)[k].id == who);
    }
}

/// The listener whose forwarding an effect changes.
pub open spec fn listener_of(e: EffectView) -> Option<Seq<char>> {
    match e {
        EffectView::Order(SfuCommandView::SetSubscriptions { listener, .. }) => Some(listener),
        EffectView::Order(SfuCommandView::MuteAll { listener }) => Some(listener),
        _ => None,
    }
}

/// Whether each order among some effects is the one that puts its listener right.
pub open spec fn all_settled(r: RosterView, effects: Seq<EffectView>, now: u64) -> bool {
    forall|k: int|
        0 <= k < effects.len() ==> (listener_of(#[trigger] effects[k]) matches Some(id)
            ==> effects[k] == settled(r, id, now))
}

proof fn drops_settle(r: RosterView, before: Seq<Seq<char>>, now: u64, at: int)
    ensures
        all_settled(r, drops(r, before, now, at), now),
    decreases before.len(),
{
    if before.len() > 0 {
        drops_settle(r, before.drop_last(), now, at);
    }
}

proof fn graphs_settle(r: RosterView, listeners: Seq<ListenerView>, now: u64, at: int)
    ensures
        all_settled(r, resumes(r, listeners, now, at), now),
        all_settled(r, vanished(r, listeners, now, at), now),
        all_settled(r, graph_news(r, listeners, now, at), now),
    decreases listeners.len(),
{
    if listeners.len() > 0 {
        graphs_settle(r, listeners.drop_last(), now, at);
    }
}

proof fn expiries_settle(r: RosterView, now: u64, n: int)
    ensures
        all_settled(r, expiries(r, now, n), now),
    decreases n,
{
    if n > 0 {
        expiries_settle(r, now, n - 1);
    }
}

/// Every order that a push leads to, and every one that is due because rosters
/// are too old, puts its listener right: there is no other order beside it by
/// which what has stopped would go on.
pub proof fn every_order_settles(r: RosterView, push: Push, now: u64, n: int, k: int, id: Seq<char>)
    ensures
        0 <= k < push_news(r, push, now).len() && listener_of(push_news(r, push, now)[k]) == Some(id)
            ==> push_news(r, push, now)[k] == settled(pushed(r, push, now), id, now),
        0 <= k < expiries(r, now, n).len() && listener_of(expiries(r, now, n)[k]) == Some(id)
            ==> expiries(r, now, n)[k] == settled(r, id, now),
        all_settled(pushed(r, push, now), push_news(r, push, now), now),
        all_settled(r, expiries(r, now, n), now),
{
    let after = pushed(r, push, now);
    let s = server(r, numbered(r, push).0);
    let at = server_at(r, numbered(r, push).0);
    expiries_settle(r, now, n);
    drops_settle(after, s.eligible, now, at);
    graphs_settle(after, s.listeners, now, at);
    if let Push::Graph(p) = push {
        graphs_settle(after, p.listeners.deep_view(), now, at);
    }
}

/// The session of `id` once all orders among some effects have been obeyed.
pub open spec fn ordered_all(s: SessionView, id: Seq<char>, effects: Seq<EffectView>) -> SessionView
    decreases effects.len(),
{
    if effects.len() == 0 {
        s
    } else {
        let before = ordered_all(s, id, effects.drop_last());
        if listener_of(effects.last()) == Some(id) {
            ordered(before, effects.last())
        } else {
            before
        }
    }
}

proof fn orders_settle(
    r: RosterView,
    s: SessionView,
    id: Seq<char>,
    effects: Seq<EffectView>,
    now: u64,
    who: Seq<char>,
)
    requires
        slots_wf(s.slots),
        all_settled(r, effects, now),
    ensures
        slots_wf(ordered_all(s, id, effects).slots),
        effects.contains(settled(r, id, now)) && forwards(ordered_all(s, id, effects), who)
            ==> exists|k: int|
            0 <= k < audible(r, id, now).len() && (#[trigger] audible(r, id, now)[k]).id == who
                && audible(r, id, now)[k].sub,
    decreases effects.len(),
{
    if effects.len() > 0 {
        let init = effects.drop_last();
        let order = settled(r, id, now);
        let before = ordered_all(s, id, init);
        assert forall|k: int| 0 <= k < init.len() implies (listener_of(
            #[trigger] init[k],
        ) matches Some(other) ==> init[k] == settled(r, other, now)) by {
            assert(init[k] == effects[k]);
        }
        orders_settle(r, s, id, init, now, who);
        let last = effects[effects.len() - 1];
        if listener_of(last) == Some(id) {
            assert(last == order);
            if let Some(j) = source(r, id, now) {
                let speakers = names_of(nearest_first(hears_in(r.servers[j].listeners, id)));
                subscribed_is_sound(before, speakers);
            }
            if forwards(ordered(before, order), who) {
                what_is_settled_is_audible(r, before, id, now, who);
            }
        } else if effects.contains(order) {
            let k = choose|k: int| 0 <= k < effects.len() && effects[k] == order;
            assert(listener_of(order) == Some(id));
            assert(init[k] == order);
        }
    }
}

/// Once all orders have been obeyed that are due because rosters are too old,
/// a player of such a server is sent only voices that a server in force lets
/// the player hear.
pub proof fn expiry_leaves_only_what_is_audible(
    r: RosterView,
    now: u64,
    i: int,
    id: Seq<char>,
    s: SessionView,
    who: Seq<char>,
)
    requires
        0 <= i < r.servers.len(),
        !in_force(r.servers[i], now),
        r.servers[i].eligible.contains(id) || listens(r.servers[i], id),
        slots_wf(s.slots),
        forwards(ordered_all(s, id, expiries(r, now, r.servers.len() as int)), who),
    ensures
        exists|k: int|
            0 <= k < audible(r, id, now).len() && (#[trigger] audible(r, id, now)[k]).id == who
                && audible(r, id, now)[k].sub,
{
    let orders = expiries(r, now, r.servers.len() as int);
    expiry_silences_everyone(r, now, i, id);
    expiries_settle(r, now, r.servers.len() as int);
    orders_settle(r, s, id, orders, now, who);
}

/// Once all orders have been obeyed that a push leads to, a player to whom one
/// of them goes is sent only voices that a server in force lets the player
/// hear.
pub proof fn a_push_leaves_only_what_is_audible(
    r: RosterView,
    push: Push,
    now: u64,
    k: int,
    id: Seq<char>,
    s: SessionView,
    who: Seq<char>,
)
    requires
        0 <= k < push_news(r, push, now).len(),
        listener_of(push_news(r, push, now)[k]) == Some(id),
        slots_wf(s.slots),
        forwards(ordered_all(s, id, push_news(r, push, now)), who),
    ensures
        ({
            let hears = audible(pushed(r, push, now), id, now);
            exists|j: int|
                0 <= j < hears.len() && (#[trigger] hears[j]).id == who && hears[j].sub
        }),
{
    every_order_settles(r, push, now, 0, k, id);
    let news = push_news(r, push, now);
    assert(news.contains(news[k]));
    orders_settle(pushed(r, push, now), s, id, news, now, who);
}

/// Without that setting a roster stops forwarding to nobody.
pub proof fn without_revocation_nobody_is_dropped(
    r: RosterView,
    before: Seq<Seq<char>>,
    now: u64,
    at: int,
)
    requires
        !r.revoke_on_death,
    ensures
        drops(r, before, now, at) == Seq::<EffectView>::empty(),
    decreases before.len(),
{
    if before.len() > 0 {
        without_revocation_nobody_is_dropped(r, before.drop_last(), now, at);
    }
}

/// When a roster comes, forwarding goes on, or starts again, for every
/// listener who may hear by it.
pub proof fn a_roster_lets_hear_again(
    r: RosterView,
    listeners: Seq<ListenerView>,
    now: u64,
    at: int,
    k: int,
)
    requires
        0 <= k < listeners.len(),
        source(r, listeners[k].id, now) == Some(at),
    ensures
        resumes(r, listeners, now, at).contains(
            subscription(listeners[k].id, hears_in(r.servers[at].listeners, listeners[k].id)),
        ),
    decreases listeners.len(),
{
    let id = listeners[k].id;
    let e = subscription(id, hears_in(r.servers[at].listeners, id));
    let rest = resumes(r, listeners.drop_last(), now, at);
    let all = resumes(r, listeners, now, at);
    if k == listeners.len() - 1 {
        assert(all[rest.len() as int] == e);
    } else {
        assert(listeners.drop_last()[k] == listeners[k]);
        a_roster_lets_hear_again(r, listeners.drop_last(), now, at, k);
        let n = choose|n: int| 0 <= n < rest.len() && rest[n] == e;
        assert(all[n] == e);
    }
}

/// Whether an effect ends no session and assigns no slot.
pub open spec fn leaves_sessions_alone(e: EffectView) -> bool {
    match e {
        EffectView::Order(SfuCommandView::Disconnect { .. }) => false,
        EffectView::Order(SfuCommandView::Supersede { .. }) => false,
        EffectView::Tell(_, ServerMsgView::Bye { .. }) => false,
        EffectView::Tell(_, ServerMsgView::Peer { .. }) => false,
        _ => true,
    }
}

/// Whether all of some effects end no session and assign no slot.
pub open spec fn all_leave_sessions_alone(effects: Seq<EffectView>) -> bool {
    forall|i: int| 0 <= i < effects.len() ==> leaves_sessions_alone(#[trigger] effects[i])
}

proof fn drops_keep(r: RosterView, before: Seq<Seq<char>>, now: u64, at: int)
    ensures
        all_leave_sessions_alone(drops(r, before, now, at)),
    decreases before.len(),
{
    if before.len() > 0 {
        drops_keep(r, before.drop_last(), now, at);
    }
}

proof fn graphs_keep(r: RosterView, listeners: Seq<ListenerView>, now: u64, at: int)
    ensures
        all_leave_sessions_alone(resumes(r, listeners, now, at)),
        all_leave_sessions_alone(vanished(r, listeners, now, at)),
        all_leave_sessions_alone(graph_news(r, listeners, now, at)),
    decreases listeners.len(),
{
    if listeners.len() > 0 {
        graphs_keep(r, listeners.drop_last(), now, at);
    }
}

proof fn expiries_keep(r: RosterView, now: u64, n: int)
    ensures
        all_leave_sessions_alone(expiries(r, now, n)),
    decreases n,
{
    if n > 0 {
        expiries_keep(r, now, n - 1);
    }
}

/// Nobody is disconnected by a push, and nobody because none comes. The slots
/// are announced by the forwarding loop and by nothing else.
pub proof fn nobody_is_disconnected(r: RosterView, push: Push, now: u64)
    ensures
        all_leave_sessions_alone(push_news(r, push, now)),
        all_leave_sessions_alone(expiries(r, now, r.servers.len() as int)),
{
    let after = pushed(r, push, now);
    let s = server(r, numbered(r, push).0);
    let at = server_at(r, numbered(r, push).0);
    expiries_keep(r, now, r.servers.len() as int);
    drops_keep(after, s.eligible, now, at);
    graphs_keep(after, s.listeners, now, at);
    if let Push::Graph(p) = push {
        graphs_keep(after, p.listeners.deep_view(), now, at);
    }
}

proof fn rank_is_sound(s: Seq<HeardView>, d: u16)
    ensures
        0 <= rank(s, d) <= s.len(),
        forall|i: int| rank(s, d) <= i < s.len() ==> (#[trigger] s[i]).d > d,
        rank(s, d) > 0 ==> s[rank(s, d) - 1].d <= d,
    decreases s.len(),
{
    if s.len() > 0 && s.last().d > d {
        rank_is_sound(s.drop_last(), d);
        assert forall|i: int| rank(s, d) <= i < s.len() implies (#[trigger] s[i]).d > d by {
            if i < s.len() - 1 {
                assert(s.drop_last()[i].d > d);
            }
        }
    }
}

/// The voices to subscribe to come in the order of their distance.
pub proof fn voices_come_nearest_first(hears: Seq<HeardView>)
    ensures
        forall|i: int, k: int|
            0 <= i <= k < nearest_first(hears).len() ==> (#[trigger] nearest_first(hears)[i]).d <= (
            #[trigger] nearest_first(hears)[k]).d,
    decreases hears.len(),
{
    if hears.len() > 0 {
        voices_come_nearest_first(hears.drop_last());
        let rest = nearest_first(hears.drop_last());
        rank_is_sound(rest, hears.last().d);
        if hears.last().sub {
            let at = rank(rest, hears.last().d);
            let all = nearest_first(hears);
            assert forall|i: int, k: int| 0 <= i <= k < all.len() implies (#[trigger] all[i]).d <= (
            #[trigger] all[k]).d by {
                if at > 0 && i < at {
                    assert(rest[i].d <= rest[at - 1].d);
                }
                let a = if i < at { i } else { i - 1 };
                let b = if k < at { k } else { k - 1 };
                if i != at && k != at {
                    assert(rest[a].d <= rest[b].d);
                }
            }
        }
    }
}

/// The voices that are to be subscribed to, in the order in which they came.
pub open spec fn to_subscribe(hears: Seq<HeardView>) -> Seq<HeardView> {
    hears.filter(|h: HeardView| h.sub)
}

/// Every voice that is to be subscribed to is there as often as it was pushed, and no other one.
pub proof fn no_voice_is_lost_or_added(hears: Seq<HeardView>)
    ensures
        nearest_first(hears).to_multiset() =~= to_subscribe(hears).to_multiset(),
    decreases hears.len(),
{
    reveal(Seq::filter);
    broadcast use vstd::seq_lib::group_to_multiset_ensures;

    if hears.len() > 0 {
        let rest = nearest_first(hears.drop_last());
        let h = hears.last();
        no_voice_is_lost_or_added(hears.drop_last());
        rank_is_sound(rest, h.d);
        if h.sub {
            let all = nearest_first(hears);
            let at = rank(rest, h.d);
            assert(all[at] == h);
            assert(all.remove(at) == rest);
            vstd::seq_lib::to_multiset_remove(all, at);
            assert(all.contains(h));
            assert(all.to_multiset() =~= rest.to_multiset().insert(h));
        }
    }
}

/// A voice is among those to subscribe to exactly if the graph says so.
pub proof fn voices_are_those_of_the_graph(hears: Seq<HeardView>, h: HeardView)
    ensures
        nearest_first(hears).contains(h) <==> hears.contains(h) && h.sub,
    decreases hears.len(),
{
    if hears.len() > 0 {
        let init = hears.drop_last();
        let rest = nearest_first(init);
        let last = hears.last();
        let all = nearest_first(hears);
        voices_are_those_of_the_graph(init, h);
        rank_is_sound(rest, last.d);
        let at = rank(rest, last.d);
        assert(hears.contains(h) <==> init.contains(h) || h == last) by {
            if hears.contains(h) {
                let k = choose|k: int| 0 <= k < hears.len() && hears[k] == h;
                if k < init.len() {
                    assert(init[k] == h);
                }
            }
            if init.contains(h) {
                let k = choose|k: int| 0 <= k < init.len() && init[k] == h;
                assert(hears[k] == h);
            }
            assert(hears[hears.len() - 1] == last);
        }
        if last.sub {
            assert(all.contains(h) <==> rest.contains(h) || h == last) by {
                if all.contains(h) {
                    let k = choose|k: int| 0 <= k < all.len() && all[k] == h;
                    if k < at {
                        assert(rest[k] == h);
                    } else if k > at {
                        assert(rest[k - 1] == h);
                    }
                }
                if rest.contains(h) {
                    let k = choose|k: int| 0 <= k < rest.len() && rest[k] == h;
                    assert(all[if k < at { k } else { k + 1 }] == h);
                }
                assert(all[at] == last);
            }
        }
    }
}

/// A listener whose session obeys the order that a graph leads to is sent only
/// voices that the graph lets the listener hear, and of those every one that
/// is among the nearest.
pub proof fn forwarded_voices_are_audible(
    s: SessionView,
    hears: Seq<HeardView>,
    who: Seq<char>,
)
    requires
        slots_wf(s.slots),
    ensures
        ({
            let speakers = names_of(nearest_first(hears));
            &&& forwards(subscribed(s, speakers), who) ==> exists|k: int|
                0 <= k < hears.len() && (#[trigger] hears[k]).id == who && hears[k].sub
            &&& forwards(subscribed(s, speakers), who) <==> nearest(speakers).contains(who)
        }),
{
    let speakers = names_of(nearest_first(hears));
    only_the_nearest_are_forwarded(s, speakers, who);
    if nearest(speakers).contains(who) {
        let i = choose|i: int| 0 <= i < nearest(speakers).len() && nearest(speakers)[i] == who;
        let h = nearest_first(hears)[i];
        assert(speakers[i] == who);
        assert(nearest_first(hears).contains(h));
        voices_are_those_of_the_graph(hears, h);
        let k = choose|k: int| 0 <= k < hears.len() && hears[k] == h;
        assert(hears[k].id == who);
    }
}

/// A graph that comes nearest first, as the game server sends it, is subscribed
/// to in the order in which it comes.
pub proof fn a_sorted_graph_keeps_its_order(hears: Seq<HeardView>)
    requires
        forall|i: int, k: int|
            0 <= i <= k < hears.len() ==> (#[trigger] hears[i]).d <= (#[trigger] hears[k]).d,
    ensures
        nearest_first(hears) == to_subscribe(hears),
    decreases hears.len(),
{
    reveal(Seq::filter);
    if hears.len() > 0 {
        let init = hears.drop_last();
        let h = hears.last();
        assert forall|i: int, k: int| 0 <= i <= k < init.len() implies (#[trigger] init[i]).d <= (
        #[trigger] init[k]).d by {
            assert(hears[i].d <= hears[k].d);
        }
        a_sorted_graph_keeps_its_order(init);
        let rest = nearest_first(init);
        if rest.len() > 0 {
            assert(rest.contains(rest[rest.len() - 1]));
            voices_are_those_of_the_graph(init, rest[rest.len() - 1]);
            let k = choose|k: int| 0 <= k < init.len() && init[k] == rest[rest.len() - 1];
            assert(hears[k].d <= hears[hears.len() - 1].d);
        }
        if h.sub {
            assert(rank(rest, h.d) == rest.len());
            assert(rest.insert(rest.len() as int, h) =~= rest.push(h));
        }
    }
}

} // verus!
