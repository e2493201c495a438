//! What the parts of the relay share, the orders that the forwarding loop
//! takes, and how requests, connections and the loop act on each other.
use crate::audibility::{
    first_entry, first_to_let_hear, forsaken, ordered_rightly, right_order,
    what_a_graph_push_leads_to, what_expiry_leads_to,
};
use crate::auth::{require_session, session, verified, verify_hmac, Sessions};
use crate::config::Config;
use crate::proto::{
    ByeReason, ClientMsg, GraphPush, HeardView, ServerId, ServerMsg, ServerMsgView, SteamId,
};
use crate::roster::{
    audible, eligible, expiries, push_news, pushed, roster_wf, server_at, too_late, yaw_from,
    Effect, EffectView, Push, Roster, RosterView,
};
use crate::sfu::{
    departure_is_complete, has_session, obeyed, routes, sessions_wf, Outcome, Reply, SfuView,
};
use crate::signal::{closed, mediate, registered, sent, ClientStep, DeliveryView, Hub, HubView};
use vstd::prelude::*;

verus! {

/// An order to the one loop that owns the forwarding table.
#[derive(Debug)]
pub enum SfuCommand {
    /// Take an SDP offer, set up its slots and answer.
    AcceptOffer { steam_id: SteamId, sdp: String },
    /// A candidate for the transport.
    Ice { steam_id: SteamId, candidate: serde_json::Value },
    /// Whom a listener is to hear from now on, the nearest first.
    SetSubscriptions { listener: SteamId, speakers: Vec<SteamId> },
    /// Stop forwarding to a listener, who stays connected.
    MuteAll { listener: SteamId },
    /// End a session.
    Disconnect { steam_id: SteamId, reason: ByeReason },
    /// End the session of a connection that another one of the same player has
    /// replaced, and which has been told goodbye. The new connection stays.
    Supersede { steam_id: SteamId },
}

/// What an `SfuCommand` holds.
#[verifier::ext_equal]
pub enum SfuCommandView {
    AcceptOffer { steam_id: Seq<char>, sdp: Seq<char> },
    Ice { steam_id: Seq<char>, candidate: serde_json::Value },
    SetSubscriptions { listener: Seq<char>, speakers: Seq<Seq<char>> },
    MuteAll { listener: Seq<char> },
    Disconnect { steam_id: Seq<char>, reason: ByeReason },
    Supersede { steam_id: Seq<char> },
}

impl DeepView for SfuCommand {
    type V = SfuCommandView;

    open spec fn deep_view(&self) -> SfuCommandView {
        match self {
            SfuCommand::AcceptOffer { steam_id, sdp } => SfuCommandView::AcceptOffer {
                steam_id: steam_id@,
                sdp: sdp@,
            },
            SfuCommand::Ice { steam_id, candidate } => SfuCommandView::Ice {
                steam_id: steam_id@,
                candidate: *candidate,
            },
            SfuCommand::SetSubscriptions { listener, speakers } => {
                SfuCommandView::SetSubscriptions {
                    listener: listener@,
                    speakers: speakers.deep_view(),
                }
            },
            SfuCommand::MuteAll { listener } => SfuCommandView::MuteAll { listener: listener@ },
            SfuCommand::Disconnect { steam_id, reason } => SfuCommandView::Disconnect {
                steam_id: steam_id@,
                reason: *reason,
            },
            SfuCommand::Supersede { steam_id } => SfuCommandView::Supersede { steam_id: steam_id@ },
        }
    }
}

/// What the parts of the relay share. The forwarding table is not among it:
/// the loop alone owns it.
pub struct AppState {
    pub hub: Hub,
    pub roster: Roster,
    pub sessions: Sessions,
    pub cfg: Config,
}

/// The answer to a push.
#[derive(Debug)]
pub struct Received {
    /// The status of the HTTP response.
    pub status: u16,
    /// Orders to the forwarding loop.
    pub orders: Vec<SfuCommand>,
}

/// What becomes of a browser that connects.
#[derive(Debug)]
pub enum Admission {
    /// It has not logged in.
    Unauthorized,
    /// It may not connect: it is told so, and closed.
    NotEligible,
    /// There is no number left for a connection.
    Exhausted,
    /// It speaks for a player of a server. Where it replaced a connection of
    /// that player, the forwarding loop is to end the session of that one.
    Connected {
        conn: u64,
        steam_id: SteamId,
        server_id: ServerId,
        order: Option<SfuCommand>,
    },
}

/// The hub once `msg` is on its way to `id`, if `id` is connected.
pub open spec fn offered(h: HubView, id: Seq<char>, msg: ServerMsgView) -> HubView {
    if h.live.contains_key(id) {
        sent(h, id, msg)
    } else {
        h
    }
}

/// The hub once all messages among some effects are on their way.
pub open spec fn told(h: HubView, effects: Seq<EffectView>) -> HubView
    decreases effects.len(),
{
    if effects.len() == 0 {
        h
    } else {
        let before = told(h, effects.drop_last());
        match effects.last() {
            EffectView::Tell(id, msg) => offered(before, id, msg),
            EffectView::Order(_) => before,
        }
    }
}

/// The orders among some effects.
pub open spec fn orders_of(effects: Seq<EffectView>) -> Seq<SfuCommandView>
    decreases effects.len(),
{
    if effects.len() == 0 {
        seq![]
    } else {
        let before = orders_of(effects.drop_last());
        match effects.last() {
            EffectView::Order(command) => before.push(command),
            EffectView::Tell(_, _) => before,
        }
    }
}

/// The hub once all of some messages are on their way.
pub open spec fn offered_all(h: HubView, msgs: Seq<(Seq<char>, ServerMsgView)>) -> HubView
    decreases msgs.len(),
{
    if msgs.len() == 0 {
        h
    } else {
        offered(offered_all(h, msgs.drop_last()), msgs.last().0, msgs.last().1)
    }
}

/// The status of the answer to a push: 401 for one that is not authentic or
/// comes too late, 400 for one that cannot be read, 204 for one that is taken.
pub open spec fn status_of(authentic: bool, readable: bool, late: bool) -> u16 {
    if !authentic {
        401
    } else if !readable {
        400
    } else if late {
        401
    } else {
        204
    }
}

/// The hub once a new connection is told whom it hears and how it is oriented.
pub open spec fn greeted(
    h: HubView,
    id: Seq<char>,
    hears: Seq<HeardView>,
    yaw: Option<u16>,
) -> HubView {
    let graph = sent(h, id, ServerMsgView::Graph { hears });
    match yaw {
        Some(deg) => sent(graph, id, ServerMsgView::Yaw { deg }),
        None => graph,
    }
}

/// The hub once the outcome of an order has been passed on.
pub open spec fn passed_on(h: HubView, command: SfuCommandView, out: Outcome) -> HubView {
    let news = offered_all(h, out.tell.deep_view());
    let answered = match (command, out.reply) {
        (SfuCommandView::AcceptOffer { steam_id, .. }, Reply::Answer(Ok(sdp))) => offered(
            news,
            steam_id,
            ServerMsgView::SdpAnswer { sdp: sdp@ },
        ),
        (_, _) => news,
    };
    match out.bye {
        Some((id, reason)) => closed(answered, id@, reason),
        None => answered,
    }
}

impl AppState {
    /// Whether all parts are sound.
    pub open spec fn wf(&self) -> bool {
        self.hub.wf() && self.roster.wf()
    }

    /// The state of a relay that has just been started.
    pub fn new(cfg: Config) -> (r: AppState)
        ensures
            r.wf(),
            r.hub@ == (HubView { next: 0, live: Map::empty(), queue: seq![] }),
            r.roster@.servers.len() == 0,
            r.roster@.whitelist == cfg@.whitelist,
            r.roster@.revoke_on_death == cfg@.revoke_on_death,
            r.sessions@ == Map::<Seq<char>, Seq<char>>::empty(),
            r.cfg == cfg,
    {
        AppState { hub: Hub::new(), roster: Roster::new(&cfg), sessions: Sessions::new(), cfg }
    }

    /// Sends the messages among some effects and gives the orders back.
    fn perform(&mut self, effects: Vec<Effect>) -> (r: Vec<SfuCommand>)
        requires
            old(self).wf(),
        ensures
            final(self).wf(),
            final(self).roster == old(self).roster,
            final(self).sessions == old(self).sessions,
            final(self).cfg == old(self).cfg,
            final(self).hub@ == told(old(self).hub@, effects.deep_view()),
            r.deep_view() == orders_of(effects.deep_view()),
    {
        let ghost all = effects.deep_view();
        let mut orders: Vec<SfuCommand> = Vec::new();
        assert(orders.deep_view() =~= orders_of(all.take(0)));
        for e in it: effects
            invariant
                it.seq() == effects@,
                all == effects.deep_view(),
                self.wf(),
                self.roster == old(self).roster,
                self.sessions == old(self).sessions,
                self.cfg == old(self).cfg,
                self.hub@ == told(old(self).hub@, all.take(it.index() as int)),
                orders.deep_view() == orders_of(all.take(it.index() as int)),
        {
            let ghost k = it.index() as int;
            proof {
                assert(all.take(k + 1).drop_last() =~= all.take(k));
                assert(all.take(k + 1).last() == e.deep_view());
            }
            let ghost known = orders.deep_view();
            match e {
                Effect::Order(command) => {
                    let ghost c = command.deep_view();
                    orders.push(command);
                    assert(orders.deep_view() =~= known.push(c));
                },
                Effect::Tell(id, msg) => {
                    let _ = self.hub.send(&id, msg);
                },
            }
        }
        assert(all.take(all.len() as int) =~= all);
        orders
    }

    /// Takes a push, signed as `signature` says and read as `push` unless its
    /// body cannot be read. One that is refused changes nothing.
    pub fn receive(
        &mut self,
        timestamp: &str,
        signature: &str,
        body: &[u8],
        push: Option<Push>,
        now: u64,
    ) -> (r: Received)
        requires
            old(self).wf(),
        ensures
            final(self).wf(),
            final(self).sessions == old(self).sessions,
            final(self).cfg == old(self).cfg,
            r.status == status_of(
                verified(old(self).cfg@.hmac_secret, timestamp@, signature@, body@, now) is Ok,
                push is Some,
                push is Some && too_late(old(self).roster@, push->0),
            ),
            if r.status == 204 {
                let news = push_news(old(self).roster@, push->0, now);
                &&& final(self).roster@ == pushed(old(self).roster@, push->0, now)
                &&& final(self).hub@ == told(old(self).hub@, news)
                &&& r.orders.deep_view() == orders_of(news)
            } else {
                &&& final(self).roster@ == old(self).roster@
                &&& final(self).hub@ == old(self).hub@
                &&& r.orders@.len() == 0
            },
    {
        if verify_hmac(self.cfg.hmac_secret.as_str(), timestamp, signature, body, now).is_err() {
            return Received { status: 401, orders: Vec::new() };
        }
        match push {
            None => Received { status: 400, orders: Vec::new() },
            Some(push) => match self.roster.apply(push, now) {
                Err(_) => Received { status: 401, orders: Vec::new() },
                Ok(effects) => {
                    let orders = self.perform(effects);
                    Received { status: 204, orders }
                },
            },
        }
    }

    /// Stops forwarding where rosters are too old at the second `now`.
    pub fn expire(&mut self, now: u64) -> (r: Vec<SfuCommand>)
        requires
            old(self).wf(),
        ensures
            final(self).wf(),
            final(self).roster == old(self).roster,
            final(self).sessions == old(self).sessions,
            final(self).cfg == old(self).cfg,
            ({
                let news = expiries(
                    old(self).roster@,
                    now,
                    old(self).roster@.servers.len() as int,
                );
                &&& final(self).hub@ == told(old(self).hub@, news)
                &&& r.deep_view() == orders_of(news)
            }),
    {
        let effects = self.roster.expire(now);
        self.perform(effects)
    }

    /// Lets a browser in that has logged in and is eligible, as a player of
    /// the first server that lists it. It is told at once whom it hears and
    /// how it is oriented, as far as that is known. A connection of that player
    /// that is there already is told goodbye, and its forwarding session ends.
    pub fn connect(&mut self, cookie: &str, now: u64) -> (r: Admission)
        requires
            old(self).wf(),
        ensures
            final(self).wf(),
            final(self).roster == old(self).roster,
            final(self).sessions == old(self).sessions,
            final(self).cfg == old(self).cfg,
            !(r is Connected) ==> final(self).hub@ == old(self).hub@,
            r is Unauthorized <==> session(old(self).sessions@, cookie@) is None,
            session(old(self).sessions@, cookie@) matches Some(id) ==> {
                let known = old(self).roster@;
                let may = exists|s: Seq<char>| #[trigger] eligible(known, s, id);
                &&& r is NotEligible <==> !may
                &&& r is Exhausted <==> may && old(self).hub@.next == u64::MAX
                &&& r matches Admission::Connected { conn, steam_id, server_id, order } ==> {
                    &&& conn == old(self).hub@.next
                    &&& steam_id@ == id
                    &&& eligible(known, server_id@, id)
                    &&& forall|i: int|
                        0 <= i < server_at(known, server_id@) ==> !eligible(
                            known,
                            (#[trigger] known.servers[i]).server_id,
                            id,
                        )
                    &&& match order {
                        Some(command) => old(self).hub@.live.contains_key(id)
                            && command.deep_view() == (SfuCommandView::Supersede { steam_id: id }),
                        None => !old(self).hub@.live.contains_key(id),
                    }
                    &&& final(self).hub@ == greeted(
                        registered(old(self).hub@, id),
                        id,
                        audible(known, id, now),
                        yaw_from(known, id, now, 0),
                    )
                }
            },
    {
        let steam_id = match require_session(&self.sessions, cookie) {
            Ok(id) => id,
            Err(_) => return Admission::Unauthorized,
        };
        let server_id = match self.roster.server_of(&steam_id) {
            Some(s) => s,
            None => return Admission::NotEligible,
        };
        assert(eligible(self.roster@, server_id@, steam_id@));
        let order = match self.hub.connection(&steam_id) {
            Some(_) => Some(SfuCommand::Supersede { steam_id: steam_id.clone() }),
            None => None,
        };
        let conn = match self.hub.register(steam_id.clone()) {
            Ok(conn) => conn,
            Err(_) => return Admission::Exhausted,
        };
        let hears = self.roster.hears_of(&steam_id, now);
        let _ = self.hub.send(&steam_id, ServerMsg::Graph { hears });
        if let Some(deg) = self.roster.yaw_of(&steam_id, now) {
            let _ = self.hub.send(&steam_id, ServerMsg::Yaw { deg });
        }
        Admission::Connected { conn, steam_id, server_id, order }
    }

    /// Takes a message of a browser. One that came over a connection which
    /// does not speak for the player any more is passed over.
    pub fn hear(&mut self, conn: u64, steam_id: &SteamId, server_id: &ServerId, msg: ClientMsg) -> (r:
        Option<SfuCommand>)
        requires
            old(self).wf(),
        ensures
            final(self).wf(),
            final(self).roster == old(self).roster,
            final(self).sessions == old(self).sessions,
            final(self).cfg == old(self).cfg,
            ({
                let live = old(self).hub@.live;
                if live.contains_key(steam_id@) && live[steam_id@] == conn {
                    match msg {
                        ClientMsg::Hello { .. } => r is None && final(self).hub@ == sent(
                            old(self).hub@,
                            steam_id@,
                            ServerMsgView::Ready { steam_id: steam_id@, server_id: server_id@ },
                        ),
                        ClientMsg::SdpOffer { sdp } => r matches Some(order) && order.deep_view()
                            == (SfuCommandView::AcceptOffer { steam_id: steam_id@, sdp: sdp@ })
                            && final(self).hub@ == old(self).hub@,
                        ClientMsg::Ice { candidate } => r matches Some(order) && order.deep_view()
                            == (SfuCommandView::Ice { steam_id: steam_id@, candidate })
                            && final(self).hub@ == old(self).hub@,
                    }
                } else {
                    r is None && final(self).hub@ == old(self).hub@
                }
            }),
    {
        match self.hub.connection(steam_id) {
            Some(current) => {
                if current != conn {
                    return None;
                }
            },
            None => return None,
        }
        match mediate(steam_id, server_id, msg) {
            ClientStep::Tell(answer) => {
                let _ = self.hub.send(steam_id, answer);
                None
            },
            ClientStep::Order(order) => Some(order),
        }
    }

    /// Passes on what an order to the forwarding loop led to: its messages,
    /// the answer to an offer, and the goodbye of a session that it ended.
    pub fn pass_on(&mut self, command: &SfuCommand, out: Outcome)
        requires
            old(self).wf(),
        ensures
            final(self).wf(),
            final(self).roster == old(self).roster,
            final(self).sessions == old(self).sessions,
            final(self).cfg == old(self).cfg,
            final(self).hub@ == passed_on(old(self).hub@, command.deep_view(), out),
    {
        let tell = out.tell;
        let ghost all = tell.deep_view();
        for m in it: tell
            invariant
                it.seq() == tell@,
                all == tell.deep_view(),
                self.wf(),
                self.roster == old(self).roster,
                self.sessions == old(self).sessions,
                self.cfg == old(self).cfg,
                self.hub@ == offered_all(old(self).hub@, all.take(it.index() as int)),
        {
            let ghost k = it.index() as int;
            proof {
                assert(all.take(k + 1).drop_last() =~= all.take(k));
                assert(all.take(k + 1).last() == (m.0@, m.1.deep_view()));
            }
            let (id, msg) = m;
            let _ = self.hub.send(&id, msg);
        }
        assert(all.take(all.len() as int) =~= all);
        if let SfuCommand::AcceptOffer { steam_id, .. } = command {
            if let Reply::Answer(Ok(sdp)) = out.reply {
                let _ = self.hub.send(steam_id, ServerMsg::SdpAnswer { sdp });
            }
        }
        if let Some((id, reason)) = out.bye {
            self.hub.close(&id, reason);
        }
    }
}

proof fn offers_keep_connections(h: HubView, msgs: Seq<(Seq<char>, ServerMsgView)>)
    ensures
        offered_all(h, msgs).live == h.live,
        offered_all(h, msgs).next == h.next,
    decreases msgs.len(),
{
    if msgs.len() > 0 {
        offers_keep_connections(h, msgs.drop_last());
    }
}

/// Once the order has been obeyed that comes of a replaced connection, the
/// former session is gone: no voice is forwarded to that player, and the
/// player's own voice to nobody. All who are connected stay connected, the new
/// connection of that player among them.
pub proof fn a_replaced_session_is_gone(
    id: Seq<char>,
    speaker: Seq<char>,
    before: SfuView,
    after: SfuView,
    answer: Option<String>,
    out: Outcome,
    h: HubView,
)
    requires
        sessions_wf(before.sessions),
        obeyed(before, SfuCommandView::Supersede { steam_id: id }, answer, after, out),
    ensures
        !has_session(after.sessions, id),
        routes(after.sessions, id) == Seq::<(Seq<char>, Seq<char>)>::empty(),
        forall|n: int|
            0 <= n < routes(after.sessions, speaker).len() ==> (#[trigger] routes(
                after.sessions,
                speaker,
            )[n]).0 != id,
        passed_on(h, SfuCommandView::Supersede { steam_id: id }, out).live == h.live,
{
    departure_is_complete(before.sessions, id, speaker);
    offers_keep_connections(h, out.tell.deep_view());
}

/// Effects are performed one after another: what two lists lead to is what the
/// first leads to and then the second. An order is handed on as it is and tells
/// nobody; a message waits for whom it is for, if that player is connected, and
/// is no order.
pub proof fn effects_are_performed_in_turn(
    h: HubView,
    a: Seq<EffectView>,
    b: Seq<EffectView>,
    command: SfuCommandView,
    id: Seq<char>,
    msg: ServerMsgView,
)
    ensures
        orders_of(a + b) == orders_of(a) + orders_of(b),
        orders_of(seq![EffectView::Order(command)]) == seq![command],
        orders_of(seq![EffectView::Tell(id, msg)]).len() == 0,
        orders_of(seq![]).len() == 0,
        told(h, a + b) == told(told(h, a), b),
        told(h, seq![EffectView::Order(command)]) == h,
        told(h, seq![]) == h,
        ({
            let t = told(h, seq![EffectView::Tell(id, msg)]);
            &&& t.live == h.live
            &&& t.next == h.next
            &&& h.live.contains_key(id) ==> t.queue == h.queue.push(
                DeliveryView { conn: h.live[id], msg, last: false },
            )
            &&& !h.live.contains_key(id) ==> t.queue == h.queue
        }),
    decreases b.len(),
{
    let none = Seq::<EffectView>::empty();
    let order = seq![EffectView::Order(command)];
    let tell = seq![EffectView::Tell(id, msg)];
    assert(order.drop_last() =~= none);
    assert(tell.drop_last() =~= none);
    assert(orders_of(none) =~= seq![]);
    assert(told(h, none) == h);
    assert(orders_of(order) =~= seq![command]);
    if b.len() == 0 {
        assert(a + b =~= a);
        assert(orders_of(a) + orders_of(b) =~= orders_of(a));
    } else {
        let init = b.drop_last();
        assert((a + b).drop_last() =~= a + init);
        assert((a + b).last() == b.last());
        effects_are_performed_in_turn(h, a, init, command, id, msg);
        assert(orders_of(a + b) =~= orders_of(a) + orders_of(b));
    }
}

/// Every order among some effects is handed on, and nothing else is.
pub proof fn every_order_is_handed_on(effects: Seq<EffectView>, k: int, n: int)
    ensures
        0 <= k < effects.len() ==> (effects[k] matches EffectView::Order(command) ==> orders_of(
            effects,
        ).contains(command)),
        0 <= n < orders_of(effects).len() ==> effects.contains(
            EffectView::Order(orders_of(effects)[n]),
        ),
    decreases effects.len(),
{
    if effects.len() > 0 {
        let init = effects.drop_last();
        let last = effects.len() - 1;
        let rest = orders_of(init);
        let all = orders_of(effects);
        every_order_is_handed_on(init, k, n);
        if 0 <= k < effects.len() {
            if let EffectView::Order(command) = effects[k] {
                if k < last {
                    assert(init[k] == effects[k]);
                    let m = choose|m: int| 0 <= m < rest.len() && rest[m] == command;
                    assert(all[m] == command);
                } else {
                    assert(all[rest.len() as int] == command);
                }
            }
        }
        if 0 <= n < all.len() {
            if n < rest.len() {
                assert(all[n] == rest[n]);
                let m = choose|m: int|
                    0 <= m < init.len() && init[m] == EffectView::Order(rest[n]);
                assert(effects[m] == EffectView::Order(all[n]));
            } else {
                assert(effects[last] == EffectView::Order(all[n]));
            }
        }
    }
}

/// Every message among some effects waits for its player, if connected, and
/// nobody's connection changes.
pub proof fn every_message_waits(h: HubView, effects: Seq<EffectView>, k: int)
    ensures
        told(h, effects).live == h.live,
        told(h, effects).next == h.next,
        told(h, effects).queue.len() >= h.queue.len(),
        told(h, effects).queue.take(h.queue.len() as int) == h.queue,
        0 <= k < effects.len() ==> (effects[k] matches EffectView::Tell(id, msg)
            ==> (h.live.contains_key(id) ==> told(h, effects).queue.contains(
            DeliveryView { conn: h.live[id], msg, last: false },
        ))),
    decreases effects.len(),
{
    let all = told(h, effects);
    if effects.len() > 0 {
        let init = effects.drop_last();
        let last = effects.len() - 1;
        let rest = told(h, init);
        every_message_waits(h, init, k);
        assert(all.queue.take(h.queue.len() as int) =~= h.queue) by {
            assert(rest.queue.take(h.queue.len() as int) =~= h.queue);
            assert forall|i: int| 0 <= i < h.queue.len() implies all.queue[i] == h.queue[i] by {
                assert(rest.queue.take(h.queue.len() as int)[i] == rest.queue[i]);
            }
        }
        if 0 <= k < effects.len() {
            if let EffectView::Tell(id, msg) = effects[k] {
                if h.live.contains_key(id) {
                    let note = DeliveryView { conn: h.live[id], msg, last: false };
                    if k < last {
                        assert(init[k] == effects[k]);
                        let m = choose|m: int| 0 <= m < rest.queue.len() && rest.queue[m] == note;
                        assert(all.queue[m] == note);
                    } else {
                        assert(all.queue[rest.queue.len() as int] == note);
                    }
                }
            }
        }
    } else {
        assert(h.queue.take(h.queue.len() as int) =~= h.queue);
    }
}

/// When a listener is among the effects rightly, it is so among the orders that
/// are handed on.
pub proof fn right_orders_are_handed_on(
    r: RosterView,
    id: Seq<char>,
    now: u64,
    effects: Seq<EffectView>,
)
    requires
        ordered_rightly(r, id, now, effects),
    ensures
        exists|n: int|
            0 <= n < orders_of(effects).len() && right_order(
                r,
                id,
                now,
                EffectView::Order(#[trigger] orders_of(effects)[n]),
            ),
{
    let k = choose|k: int| 0 <= k < effects.len() && right_order(r, id, now, #[trigger] effects[k]);
    every_order_is_handed_on(effects, k, 0);
    assert(effects[k] is Order);
    let command = effects[k]->Order_0;
    let all = orders_of(effects);
    let n = choose|n: int| 0 <= n < all.len() && all[n] == command;
    assert(right_order(r, id, now, EffectView::Order(orders_of(effects)[n])));
}

/// When rosters are too old, the loop is handed for every player of such a
/// server, on its roster or in its graph, the order to forward only what that
/// player still may hear, and nothing where no server lets the player hear.
pub proof fn expiry_reaches_the_loop(r: RosterView, now: u64, id: Seq<char>)
    requires
        forsaken(r, now, r.servers.len() as int).contains(id),
    ensures
        ({
            let orders = orders_of(expiries(r, now, r.servers.len() as int));
            exists|n: int|
                0 <= n < orders.len() && right_order(
                    r,
                    id,
                    now,
                    EffectView::Order(#[trigger] orders[n]),
                )
        }),
{
    what_expiry_leads_to(r, now);
    right_orders_are_handed_on(r, id, now, expiries(r, now, r.servers.len() as int));
}

/// A connected listener in a graph push that is taken, who may hear by its
/// server, is sent what the push gives for that listener, and the loop is
/// handed the order to forward it.
pub proof fn a_graph_reaches_listener_and_loop(
    h: HubView,
    r: RosterView,
    p: GraphPush,
    now: u64,
    i: int,
    k: int,
)
    requires
        roster_wf(r),
        0 <= i < pushed(r, Push::Graph(p), now).servers.len(),
        pushed(r, Push::Graph(p), now).servers[i].server_id == p.server_id@,
        first_entry(p.listeners.deep_view(), k, p.listeners.deep_view()[k].id),
        first_to_let_hear(
            pushed(r, Push::Graph(p), now),
            i,
            p.listeners.deep_view()[k].id,
            now,
        ),
    ensures
        ({
            let news = push_news(r, Push::Graph(p), now);
            let id = p.listeners.deep_view()[k].id;
            let hears = p.listeners.deep_view()[k].hears;
            let orders = orders_of(news);
            &&& h.live.contains_key(id) ==> told(h, news).queue.contains(
                DeliveryView {
                    conn: h.live[id],
                    msg: ServerMsgView::Graph { hears },
                    last: false,
                },
            )
            &&& exists|n: int|
                0 <= n < orders.len() && right_order(
                    pushed(r, Push::Graph(p), now),
                    id,
                    now,
                    EffectView::Order(#[trigger] orders[n]),
                )
        }),
{
    let news = push_news(r, Push::Graph(p), now);
    let graph = p.listeners.deep_view();
    what_a_graph_push_leads_to(r, p, now, i, k);
    let n = choose|n: int|
        0 <= n < news.len() && (#[trigger] news[n]) == EffectView::Tell(
            graph[k].id,
            ServerMsgView::Graph { hears: graph[k].hears },
        );
    every_message_waits(h, news, n);
    right_orders_are_handed_on(pushed(r, Push::Graph(p), now), graph[k].id, now, news);
}

/// Messages of the loop wait one after another, each for whom it is for, if
/// that player is connected.
pub proof fn messages_of_the_loop_wait_in_turn(
    h: HubView,
    a: Seq<(Seq<char>, ServerMsgView)>,
    b: Seq<(Seq<char>, ServerMsgView)>,
    id: Seq<char>,
    msg: ServerMsgView,
)
    ensures
        offered_all(h, a + b) == offered_all(offered_all(h, a), b),
        offered_all(h, seq![]) == h,
        ({
            let t = offered_all(h, seq![(id, msg)]);
            &&& t.live == h.live
            &&& t.next == h.next
            &&& h.live.contains_key(id) ==> t.queue == h.queue.push(
                DeliveryView { conn: h.live[id], msg, last: false },
            )
            &&& !h.live.contains_key(id) ==> t.queue == h.queue
        }),
    decreases b.len(),
{
    let none = Seq::<(Seq<char>, ServerMsgView)>::empty();
    let one = seq![(id, msg)];
    assert(one.drop_last() =~= none);
    assert(offered_all(h, none) == h);
    if b.len() == 0 {
        assert(a + b =~= a);
    } else {
        let init = b.drop_last();
        assert((a + b).drop_last() =~= a + init);
        assert((a + b).last() == b.last());
        messages_of_the_loop_wait_in_turn(h, a, init, id, msg);
    }
}

/// The outcome of an order is passed on: first its messages, then the answer
/// to an offer to whom made it, and at last the goodbye, which closes the
/// connection of that player. Nothing else changes.
pub proof fn outcomes_are_passed_on(h: HubView, command: SfuCommandView, out: Outcome)
    ensures
        ({
            let news = offered_all(h, out.tell.deep_view());
            let after = passed_on(h, command, out);
            &&& after.next == h.next
            &&& match (command, out.reply, out.bye) {
                (SfuCommandView::AcceptOffer { steam_id, .. }, Reply::Answer(Ok(sdp)), None) => {
                    &&& after.live == h.live
                    &&& h.live.contains_key(steam_id) ==> after.queue == news.queue.push(
                        DeliveryView {
                            conn: h.live[steam_id],
                            msg: ServerMsgView::SdpAnswer { sdp: sdp@ },
                            last: false,
                        },
                    )
                    &&& !h.live.contains_key(steam_id) ==> after.queue == news.queue
                },
                (_, Reply::Answer(_), Some(_)) => true,
                (_, _, None) => after == news,
                (_, _, Some((id, reason))) => if h.live.contains_key(id@) {
                    &&& after.live == h.live.remove(id@)
                    &&& after.queue == news.queue.push(
                        DeliveryView {
                            conn: h.live[id@],
                            msg: ServerMsgView::Bye { reason },
                            last: true,
                        },
                    )
                } else {
                    after == news
                },
            }
        }),
{
    offers_keep_connections(h, out.tell.deep_view());
}

/// A connection that has just come is told, in this order, whom its player
/// hears and, where it is known, how the player is oriented.
pub proof fn newcomers_are_greeted(
    h: HubView,
    id: Seq<char>,
    hears: Seq<HeardView>,
    yaw: Option<u16>,
)
    requires
        h.live.contains_key(id),
    ensures
        ({
            let after = greeted(h, id, hears, yaw);
            let graph = DeliveryView {
                conn: h.live[id],
                msg: ServerMsgView::Graph { hears },
                last: false,
            };
            &&& after.live == h.live
            &&& after.next == h.next
            &&& yaw is None ==> after.queue == h.queue.push(graph)
            &&& yaw matches Some(deg) ==> after.queue == h.queue.push(graph).push(
                DeliveryView {
                    conn: h.live[id],
                    msg: ServerMsgView::Yaw { deg },
                    last: false,
                },
            )
        }),
{
}

/// A push is answered 204 only if it is authentic, can be read and is not too
/// late; one that is authentic and cannot be read is answered 400, and all
/// others 401.
pub proof fn answers_to_pushes(authentic: bool, readable: bool, late: bool)
    ensures
        status_of(authentic, readable, late) == 204 <==> authentic && readable && !late,
        status_of(authentic, readable, late) == 400 <==> authentic && !readable,
        status_of(authentic, readable, late) == 401 <==> !authentic || (readable && late),
{
}

/// Two orders that differ anywhere are shown as different.
pub proof fn orders_are_shown_whole(a: SfuCommand, b: SfuCommand, k: int)
    requires
        a.deep_view() == b.deep_view(),
    ensures
        match (a, b) {
            (
                SfuCommand::AcceptOffer { steam_id: s, sdp: t },
                SfuCommand::AcceptOffer { steam_id: u, sdp: v },
            ) => s@ == u@ && t@ == v@,
            (
                SfuCommand::Ice { steam_id: s, candidate: t },
                SfuCommand::Ice { steam_id: u, candidate: v },
            ) => s@ == u@ && t == v,
            (
                SfuCommand::SetSubscriptions { listener: s, speakers: t },
                SfuCommand::SetSubscriptions { listener: u, speakers: v },
            ) => s@ == u@ && t@.len() == v@.len() && (0 <= k < t@.len() ==> t@[k]@ == v@[k]@),
            (SfuCommand::MuteAll { listener: s }, SfuCommand::MuteAll { listener: t }) => s@ == t@,
            (
                SfuCommand::Disconnect { steam_id: s, reason: t },
                SfuCommand::Disconnect { steam_id: u, reason: v },
            ) => s@ == u@ && t == v,
            (SfuCommand::Supersede { steam_id: s }, SfuCommand::Supersede { steam_id: t }) => s@
                == t@,
            (_, _) => false,
        },
{
    if let (
        SfuCommand::SetSubscriptions { speakers: t, .. },
        SfuCommand::SetSubscriptions { speakers: v, .. },
    ) = (a, b) {
        assert(t.deep_view() == v.deep_view());
        assert(t.deep_view().len() == t@.len() && v.deep_view().len() == v@.len());
        if 0 <= k < t@.len() {
            assert(t.deep_view()[k] == t@[k]@);
            assert(v.deep_view()[k] == v@[k]@);
        }
    }
}

} // verus!
