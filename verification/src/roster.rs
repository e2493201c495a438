//! The rosters and audibility graphs of the game servers, and who may hear
//! whom by them.
//!
//! A roster is pushed in full and replaces the one before it. When none has
//! come for `ROSTER_TTL_S` seconds, nothing is forwarded to the players of that
//! server any more; nobody is disconnected for that.
use crate::config::Config;
use crate::proto::{
    copy_hears, GraphPush, Heard, HeardView, Listener, ListenerView, RosterPush, ServerId,
    ServerMsg, ServerMsgView, SteamId, TalkPush, YawPush, ROSTER_TTL_S,
};
use crate::state::{SfuCommand, SfuCommandView};
use vstd::prelude::*;

verus! {

/// What is known of one game server.
struct Server {
    server_id: ServerId,
    /// The number of the last push of each kind.
    roster_seq: Option<u64>,
    graph_seq: Option<u64>,
    yaw_seq: Option<u64>,
    talk_seq: Option<u64>,
    /// Who is on the roster.
    eligible: Vec<SteamId>,
    /// When the roster came.
    received: Option<u64>,
    /// The audibility graph.
    listeners: Vec<Listener>,
    /// The orientation of the listeners.
    yaws: Vec<(SteamId, u16)>,
}

/// What is known of one game server.
#[verifier::ext_equal]
pub struct ServerView {
    pub server_id: Seq<char>,
    pub roster_seq: Option<u64>,
    pub graph_seq: Option<u64>,
    pub yaw_seq: Option<u64>,
    pub talk_seq: Option<u64>,
    pub eligible: Seq<Seq<char>>,
    pub received: Option<u64>,
    pub listeners: Seq<ListenerView>,
    pub yaws: Seq<(Seq<char>, u16)>,
}

impl DeepView for Server {
    type V = ServerView;

    closed spec fn deep_view(&self) -> ServerView {
        ServerView {
            server_id: self.server_id@,
            roster_seq: self.roster_seq,
            graph_seq: self.graph_seq,
            yaw_seq: self.yaw_seq,
            talk_seq: self.talk_seq,
            eligible: self.eligible.deep_view(),
            received: self.received,
            listeners: self.listeners.deep_view(),
            yaws: self.yaws.deep_view(),
        }
    }
}

/// All that the game servers have pushed, and the settings that bear on it.
pub struct Roster {
    revoke_on_death: bool,
    whitelist: Vec<SteamId>,
    servers: Vec<Server>,
}

/// What a `Roster` holds: the servers in the order of their first push.
#[verifier::ext_equal]
pub struct RosterView {
    pub revoke_on_death: bool,
    pub whitelist: Seq<Seq<char>>,
    pub servers: Seq<ServerView>,
}

impl View for Roster {
    type V = RosterView;

    closed spec fn view(&self) -> RosterView {
        RosterView {
            revoke_on_death: self.revoke_on_death,
            whitelist: self.whitelist.deep_view(),
            servers: self.servers.deep_view(),
        }
    }
}

/// Why a push is refused.
#[derive(Debug, Clone, Copy, PartialEq, Eq, Structural)]
pub enum PushError {
    /// Its number does not go beyond that of the last push of its kind.
    StaleSeq,
}

/// A push of any kind.
#[derive(Debug, Clone)]
pub enum Push {
    Roster(RosterPush),
    Graph(GraphPush),
    Yaw(YawPush),
    Talk(TalkPush),
}

/// What a push leads to.
#[derive(Debug)]
pub enum Effect {
    /// An order to the forwarding loop.
    Order(SfuCommand),
    /// A message to a player's browser.
    Tell(SteamId, ServerMsg),
}

/// What an `Effect` holds.
#[verifier::ext_equal]
pub enum EffectView {
    Order(SfuCommandView),
    Tell(Seq<char>, ServerMsgView),
}

impl DeepView for Effect {
    type V = EffectView;

    open spec fn deep_view(&self) -> EffectView {
        match self {
            Effect::Order(c) => EffectView::Order(c.deep_view()),
            Effect::Tell(id, m) => EffectView::Tell(id@, m.deep_view()),
        }
    }
}

/// Whether a push comes too late: its number is not beyond the last one.
pub open spec fn stale(last: Option<u64>, seq: u64) -> bool {
    last matches Some(n) && seq <= n
}

/// A server of which nothing has come yet.
pub open spec fn unheard(server_id: Seq<char>) -> ServerView {
    ServerView {
        server_id,
        roster_seq: None,
        graph_seq: None,
        yaw_seq: None,
        talk_seq: None,
        eligible: seq![],
        received: None,
        listeners: seq![],
        yaws: seq![],
    }
}

/// Whether anything has come from a server.
pub open spec fn has_server(r: RosterView, server_id: Seq<char>) -> bool {
    exists|i: int| 0 <= i < r.servers.len() && (#[trigger] r.servers[i]).server_id == server_id
}

/// The place of a server: that of a new one is behind the others.
pub open spec fn server_at(r: RosterView, server_id: Seq<char>) -> int {
    if has_server(r, server_id) {
        choose|i: int| 0 <= i < r.servers.len() && (#[trigger] r.servers[i]).server_id == server_id
    } else {
        r.servers.len() as int
    }
}

/// What is known of a server.
pub open spec fn server(r: RosterView, server_id: Seq<char>) -> ServerView {
    if has_server(r, server_id) {
        r.servers[server_at(r, server_id)]
    } else {
        unheard(server_id)
    }
}

/// The roster with another state of one server.
pub open spec fn with_server(r: RosterView, s: ServerView) -> RosterView {
    RosterView {
        servers: if has_server(r, s.server_id) {
            r.servers.update(server_at(r, s.server_id), s)
        } else {
            r.servers.push(s)
        },
        ..r
    }
}

/// Whether no server is there twice.
pub open spec fn roster_wf(r: RosterView) -> bool {
    forall|i: int, k: int|
        0 <= i < k < r.servers.len() ==> (#[trigger] r.servers[i]).server_id != (
        #[trigger] r.servers[k]).server_id
}

/// Whether the roster of a server is in force at the second `now`.
pub open spec fn in_force(s: ServerView, now: u64) -> bool {
    s.received matches Some(t) && now - t <= ROSTER_TTL_S
}

/// Whether `id` has lost the right to hear by not being on the roster.
pub open spec fn revoked(r: RosterView, s: ServerView, id: Seq<char>) -> bool {
    r.revoke_on_death && !s.eligible.contains(id)
}

/// Whether `id` is a listener of a server's graph.
pub open spec fn listens(s: ServerView, id: Seq<char>) -> bool {
    exists|k: int| 0 <= k < s.listeners.len() && (#[trigger] s.listeners[k]).id == id
}

/// What the first entry of `id` in a graph says.
pub open spec fn hears_in(listeners: Seq<ListenerView>, id: Seq<char>) -> Seq<HeardView>
    decreases listeners.len(),
{
    if listeners.len() == 0 {
        seq![]
    } else if listeners[0].id == id {
        listeners[0].hears
    } else {
        hears_in(listeners.drop_first(), id)
    }
}

/// Whether `id` may hear by what one server says.
pub open spec fn hears_by(r: RosterView, s: ServerView, id: Seq<char>, now: u64) -> bool {
    in_force(s, now) && !revoked(r, s, id) && listens(s, id)
}

/// The first server from place `i` on by which `id` may hear.
pub open spec fn source_from(r: RosterView, id: Seq<char>, now: u64, i: int) -> Option<int>
    decreases r.servers.len() - i,
{
    if i >= r.servers.len() {
        None
    } else if hears_by(r, r.servers[i], id, now) {
        Some(i)
    } else {
        source_from(r, id, now, i + 1)
    }
}

/// The server by which `id` may hear.
pub open spec fn source(r: RosterView, id: Seq<char>, now: u64) -> Option<int> {
    source_from(r, id, now, 0)
}

/// Whom `id` may hear at the second `now`.
pub open spec fn audible(r: RosterView, id: Seq<char>, now: u64) -> Seq<HeardView> {
    match source(r, id, now) {
        Some(i) => hears_in(r.servers[i].listeners, id),
        None => seq![],
    }
}

/// Whether `id` may connect as a player of a server.
pub open spec fn eligible(r: RosterView, server_id: Seq<char>, id: Seq<char>) -> bool {
    server(r, server_id).eligible.contains(id) && (r.whitelist.len() == 0 || r.whitelist.contains(
        id,
    ))
}

/// How many voices at the head of `s`, which is ordered by distance, are no farther than `d`.
pub open spec fn rank(s: Seq<HeardView>, d: u16) -> int
    decreases s.len(),
{
    if s.len() == 0 || s.last().d <= d {
        s.len() as int
    } else {
        rank(s.drop_last(), d)
    }
}

/// The voices to subscribe to, the nearest first; of two at one distance the
/// earlier one first.
pub open spec fn nearest_first(hears: Seq<HeardView>) -> Seq<HeardView>
    decreases hears.len(),
{
    if hears.len() == 0 {
        seq![]
    } else {
        let rest = nearest_first(hears.drop_last());
        let h = hears.last();
        if h.sub {
            rest.insert(rank(rest, h.d), h)
        } else {
            rest
        }
    }
}

/// The names of voices.
pub open spec fn names_of(hears: Seq<HeardView>) -> Seq<Seq<char>> {
    Seq::new(hears.len(), |i: int| hears[i].id)
}

/// The order to forward to `id` what it hears.
pub open spec fn subscription(id: Seq<char>, hears: Seq<HeardView>) -> EffectView {
    EffectView::Order(
        SfuCommandView::SetSubscriptions { listener: id, speakers: names_of(nearest_first(hears)) },
    )
}

/// The order to stop forwarding to `id`.
pub open spec fn mute(id: Seq<char>) -> EffectView {
    EffectView::Order(SfuCommandView::MuteAll { listener: id })
}

/// The order that puts right what is forwarded to `id`: what the graph of the
/// server says by which `id` may hear, or nothing where there is no such server.
pub open spec fn settled(r: RosterView, id: Seq<char>, now: u64) -> EffectView {
    match source(r, id, now) {
        Some(j) => subscription(id, hears_in(r.servers[j].listeners, id)),
        None => mute(id),
    }
}

/// What a new roster takes from those whom it drops: each is forwarded to
/// only what another server lets hear.
pub open spec fn drops(r: RosterView, before: Seq<Seq<char>>, now: u64, at: int) -> Seq<EffectView>
    decreases before.len(),
{
    if before.len() == 0 {
        seq![]
    } else {
        let rest = drops(r, before.drop_last(), now, at);
        let id = before.last();
        if revoked(r, r.servers[at], id) {
            rest.push(settled(r, id, now))
        } else {
            rest
        }
    }
}

/// The order to forward, for each of `listeners` who may hear by the server at `at`.
pub open spec fn resumes(
    r: RosterView,
    listeners: Seq<ListenerView>,
    now: u64,
    at: int,
) -> Seq<EffectView>
    decreases listeners.len(),
{
    if listeners.len() == 0 {
        seq![]
    } else {
        let rest = resumes(r, listeners.drop_last(), now, at);
        let id = listeners.last().id;
        if source(r, id, now) == Some(at) {
            rest.push(subscription(id, hears_in(r.servers[at].listeners, id)))
        } else {
            rest
        }
    }
}

/// What those of `before` are told and sent who are not in the graph any more:
/// what another server lets hear, or nothing.
pub open spec fn vanished(
    r: RosterView,
    before: Seq<ListenerView>,
    now: u64,
    at: int,
) -> Seq<EffectView>
    decreases before.len(),
{
    if before.len() == 0 {
        seq![]
    } else {
        let rest = vanished(r, before.drop_last(), now, at);
        let id = before.last().id;
        if !listens(r.servers[at], id) {
            rest.push(
                EffectView::Tell(id, ServerMsgView::Graph { hears: audible(r, id, now) }),
            ).push(settled(r, id, now))
        } else {
            rest
        }
    }
}

/// What those of `listeners` are told and sent who may hear by the server at `at`.
pub open spec fn graph_news(
    r: RosterView,
    listeners: Seq<ListenerView>,
    now: u64,
    at: int,
) -> Seq<EffectView>
    decreases listeners.len(),
{
    if listeners.len() == 0 {
        seq![]
    } else {
        let rest = graph_news(r, listeners.drop_last(), now, at);
        let id = listeners.last().id;
        let hears = hears_in(r.servers[at].listeners, id);
        if source(r, id, now) == Some(at) {
            rest.push(EffectView::Tell(id, ServerMsgView::Graph { hears })).push(
                subscription(id, hears),
            )
        } else {
            rest
        }
    }
}

/// What players are told of their orientation.
pub open spec fn yaw_news(yaws: Seq<(Seq<char>, u16)>) -> Seq<EffectView> {
    Seq::new(
        yaws.len(),
        |i: int| EffectView::Tell(yaws[i].0, ServerMsgView::Yaw { deg: yaws[i].1 }),
    )
}

/// The order that puts right what is forwarded, for each of `ids`.
pub open spec fn settlements(r: RosterView, ids: Seq<Seq<char>>, now: u64) -> Seq<EffectView> {
    Seq::new(ids.len(), |i: int| settled(r, ids[i], now))
}

/// The names of listeners.
pub open spec fn listener_names(listeners: Seq<ListenerView>) -> Seq<Seq<char>> {
    Seq::new(listeners.len(), |i: int| listeners[i].id)
}

/// The orders that stop what was forwarded by the first `n` servers, to the
/// players of those whose rosters are not in force.
pub open spec fn expiries(r: RosterView, now: u64, n: int) -> Seq<EffectView>
    decreases n,
{
    if n <= 0 {
        seq![]
    } else {
        let rest = expiries(r, now, n - 1);
        let s = r.servers[n - 1];
        if in_force(s, now) {
            rest
        } else {
            rest + settlements(r, s.eligible, now) + settlements(
                r,
                listener_names(s.listeners),
                now,
            )
        }
    }
}

/// The state of a server after a roster push.
pub open spec fn roster_taken(s: ServerView, seq: u64, eligible: Seq<Seq<char>>, now: u64) -> ServerView {
    ServerView { roster_seq: Some(seq), eligible, received: Some(now), ..s }
}

/// The state of a server after a graph push.
pub open spec fn graph_taken(s: ServerView, seq: u64, listeners: Seq<ListenerView>) -> ServerView {
    ServerView { graph_seq: Some(seq), listeners, ..s }
}

/// The state of a server after a push of orientations.
pub open spec fn yaws_taken(s: ServerView, seq: u64, yaws: Seq<(Seq<char>, u16)>) -> ServerView {
    ServerView { yaw_seq: Some(seq), yaws, ..s }
}

/// The state of a server after a push-to-talk push.
pub open spec fn talk_taken(s: ServerView, seq: u64) -> ServerView {
    ServerView { talk_seq: Some(seq), ..s }
}

/// The voices to subscribe to, the nearest first.
fn sort_voices(hears: &Vec<Heard>) -> (r: Vec<SteamId>)
    ensures
        r.deep_view() == names_of(nearest_first(hears.deep_view())),
{
    let ghost view = hears.deep_view();
    let mut sorted: Vec<Heard> = Vec::new();
    let mut i: usize = 0;
    assert(sorted.deep_view() =~= nearest_first(view.take(0)));
    while i < hears.len()
        invariant
            i <= hears@.len(),
            view == hears.deep_view(),
            sorted.deep_view() == nearest_first(view.take(i as int)),
        decreases hears@.len() - i,
    {
        let h = &hears[i];
        let ghost before = sorted.deep_view();
        if h.sub {
            let mut at: usize = sorted.len();
            assert(before.take(at as int) =~= before);
            while at > 0 && sorted[at - 1].d > h.d
                invariant
                    at <= sorted@.len(),
                    before == sorted.deep_view(),
                    rank(before, h.d) == rank(before.take(at as int), h.d),
                decreases at,
            {
                assert(before.take(at as int).last() == before[at - 1]);
                assert(before.take(at as int).drop_last() =~= before.take(at - 1));
                at = at - 1;
            }
            proof {
                if at > 0 {
                    assert(before.take(at as int).last() == before[at - 1]);
                }
                assert(rank(before, h.d) == at);
            }
            sorted.insert(at, h.copy());
            assert(sorted.deep_view() =~= before.insert(at as int, h.deep_view()));
        }
        i = i + 1;
        assert(view.take(i as int).drop_last() =~= view.take(i - 1));
        assert(view.take(i as int).last() == view[i - 1]);
    }
    assert(view.take(i as int) =~= view);
    let mut out: Vec<SteamId> = Vec::new();
    let mut k: usize = 0;
    while k < sorted.len()
        invariant
            k <= sorted@.len(),
            out@.len() == k,
            forall|j: int| 0 <= j < k ==> (#[trigger] out@[j])@ == sorted@[j].id@,
        decreases sorted@.len() - k,
    {
        out.push(sorted[k].id.clone());
        k = k + 1;
    }
    assert(out.deep_view() =~= names_of(sorted.deep_view()));
    out
}

/// The place of the first entry of `id` in a graph.
fn find_listener(listeners: &Vec<Listener>, id: &SteamId) -> (r: Option<usize>)
    ensures
        match r {
            Some(k) => k < listeners@.len() && listeners.deep_view()[k as int].id == id@
                && hears_in(listeners.deep_view(), id@) == listeners@[k as int].hears.deep_view(),
            None => hears_in(listeners.deep_view(), id@) == Seq::<HeardView>::empty() && forall|
                k: int,
            |
                0 <= k < listeners@.len() ==> (#[trigger] listeners.deep_view()[k]).id != id@,
        },
{
    let ghost view = listeners.deep_view();
    let mut k: usize = 0;
    assert(view.skip(0) =~= view);
    while k < listeners.len()
        invariant
            k <= listeners@.len(),
            view == listeners.deep_view(),
            hears_in(view, id@) == hears_in(view.skip(k as int), id@),
            forall|j: int| 0 <= j < k ==> (#[trigger] view[j]).id != id@,
        decreases listeners@.len() - k,
    {
        assert(view.skip(k as int)[0] == view[k as int]);
        assert(view.skip(k as int).drop_first() =~= view.skip(k + 1));
        if listeners[k].id == *id {
            return Some(k);
        }
        k = k + 1;
    }
    assert(view.skip(k as int).len() == 0);
    None
}

/// What the first entry of `id` in a graph says.
fn copy_heard(listeners: &Vec<Listener>, id: &SteamId) -> (r: Vec<Heard>)
    ensures
        r.deep_view() == hears_in(listeners.deep_view(), id@),
{
    match find_listener(listeners, id) {
        Some(k) => copy_hears(&listeners[k].hears),
        None => {
            let r: Vec<Heard> = Vec::new();
            assert(r.deep_view() =~= Seq::<HeardView>::empty());
            r
        },
    }
}

impl Server {
    fn new(server_id: &ServerId) -> (r: Server)
        ensures
            r.deep_view() == unheard(server_id@),
    {
        let r = Server {
            server_id: server_id.clone(),
            roster_seq: None,
            graph_seq: None,
            yaw_seq: None,
            talk_seq: None,
            eligible: Vec::new(),
            received: None,
            listeners: Vec::new(),
            yaws: Vec::new(),
        };
        assert(r.deep_view() =~= unheard(server_id@));
        r
    }

    fn is_in_force(&self, now: u64) -> (r: bool)
        ensures
            r == in_force(self.deep_view(), now),
    {
        match self.received {
            Some(t) => now <= t || now - t <= ROSTER_TTL_S,
            None => false,
        }
    }
}

fn is_stale(last: Option<u64>, seq: u64) -> (r: bool)
    ensures
        r == stale(last, seq),
{
    match last {
        Some(n) => seq <= n,
        None => false,
    }
}

fn mute_order(id: &SteamId) -> (r: Effect)
    ensures
        r.deep_view() == mute(id@),
{
    Effect::Order(SfuCommand::MuteAll { listener: id.clone() })
}

fn subscription_order(id: &SteamId, hears: &Vec<Heard>) -> (r: Effect)
    ensures
        r.deep_view() == subscription(id@, hears.deep_view()),
{
    Effect::Order(
        SfuCommand::SetSubscriptions { listener: id.clone(), speakers: sort_voices(hears) },
    )
}

impl Roster {
    /// Whether no server is there twice.
    pub open spec fn wf(&self) -> bool {
        roster_wf(self@)
    }

    /// A roster by the settings, without any push.
    pub fn new(cfg: &Config) -> (r: Roster)
        ensures
            r.wf(),
            r@ == (RosterView {
                revoke_on_death: cfg@.revoke_on_death,
                whitelist: cfg@.whitelist,
                servers: seq![],
            }),
    {
        let r = Roster {
            revoke_on_death: cfg.revoke_on_death,
            whitelist: crate::text::copy_ids(cfg.whitelist.as_slice()),
            servers: Vec::new(),
        };
        assert(r@.servers =~= seq![]);
        r
    }

    fn find(&self, server_id: &ServerId) -> (r: Option<usize>)
        requires
            self.wf(),
        ensures
            match r {
                Some(i) => i < self.servers@.len() && has_server(self@, server_id@) && i
                    == server_at(self@, server_id@),
                None => !has_server(self@, server_id@),
            },
    {
        let ghost view = self@.servers;
        let mut i: usize = 0;
        while i < self.servers.len()
            invariant
                i <= self.servers@.len(),
                view == self@.servers,
                self.wf(),
                forall|k: int| 0 <= k < i ==> (#[trigger] view[k]).server_id != server_id@,
            decreases self.servers@.len() - i,
        {
            if self.servers[i].server_id == *server_id {
                proof {
                    assert(view[i as int].server_id == server_id@);
                    let p = server_at(self@, server_id@);
                    assert(view[p].server_id == server_id@);
                    assert(p == i);
                }
                return Some(i);
            }
            i = i + 1;
        }
        None
    }

    /// Takes the state of a server out, a new one where there is none, and
    /// says at which place it belongs.
    fn detach(&mut self, server_id: &ServerId) -> (r: (usize, Server))
        requires
            old(self).wf(),
        ensures
            r.0 == server_at(old(self)@, server_id@),
            r.1.deep_view() == server(old(self)@, server_id@),
            detached(*old(self), *final(self), server_id@),
    {
        let ghost view = self@.servers;
        match self.find(server_id) {
            Some(i) => {
                assert(view[i as int] == self.servers@[i as int].deep_view());
                let s = self.servers.remove(i);
                (i, s)
            },
            None => (self.servers.len(), Server::new(server_id)),
        }
    }

    /// Puts the state of a server where it belongs.
    fn attach(&mut self, at: usize, s: Server, Ghost(start): Ghost<Roster>)
        requires
            start.wf(),
            at == server_at(start@, s.server_id@),
            detached(start, *old(self), s.server_id@),
        ensures
            final(self).wf(),
            final(self)@ == with_server(start@, s.deep_view()),
            at < final(self).servers@.len(),
    {
        let ghost id = s.server_id@;
        proof {
            if has_server(start@, id) {
                assert(start@.servers[at as int].server_id == id);
            }
        }
        self.servers.insert(at, s);
        proof {
            let goal = with_server(start@, s.deep_view());
            assert(self@.servers =~= goal.servers);
            assert forall|i: int, k: int| 0 <= i < k < goal.servers.len() implies (
            #[trigger] goal.servers[i]).server_id != (#[trigger] goal.servers[k]).server_id by {
                if has_server(start@, id) {
                    assert(start@.servers[i].server_id != start@.servers[k].server_id);
                } else {
                    assert(start@.servers[i].server_id != id);
                    if k < start@.servers.len() {
                        assert(start@.servers[i].server_id != start@.servers[k].server_id);
                    }
                }
            }
        }
    }

    fn may_hear_by(&self, i: usize, id: &SteamId, now: u64) -> (r: bool)
        requires
            i < self.servers@.len(),
        ensures
            r == hears_by(self@, self@.servers[i as int], id@, now),
    {
        let s = &self.servers[i];
        assert(self@.servers[i as int] == s.deep_view());
        if !s.is_in_force(now) {
            return false;
        }
        if self.revoke_on_death && !crate::text::contains(&s.eligible, id) {
            return false;
        }
        match find_listener(&s.listeners, id) {
            Some(k) => {
                assert(s.deep_view().listeners[k as int].id == id@);
                true
            },
            None => false,
        }
    }

    /// The place of the server by which `id` may hear.
    fn find_source(&self, id: &SteamId, now: u64) -> (r: Option<usize>)
        ensures
            match r {
                Some(i) => i < self.servers@.len() && source(self@, id@, now) == Some(i as int),
                None => source(self@, id@, now) is None,
            },
    {
        let mut i: usize = 0;
        while i < self.servers.len()
            invariant
                i <= self.servers@.len(),
                source(self@, id@, now) == source_from(self@, id@, now, i as int),
            decreases self.servers@.len() - i,
        {
            if self.may_hear_by(i, id, now) {
                return Some(i);
            }
            i = i + 1;
        }
        None
    }

    /// Whether `id` may connect as a player of `server`.
    pub fn is_eligible(&self, server: &ServerId, id: &SteamId) -> (r: bool)
        requires
            self.wf(),
        ensures
            r == eligible(self@, server@, id@),
    {
        match self.find(server) {
            Some(i) => {
                assert(self@.servers[i as int] == self.servers@[i as int].deep_view());
                crate::text::contains(&self.servers[i].eligible, id) && (self.whitelist.is_empty()
                    || crate::text::contains(&self.whitelist, id))
            },
            None => false,
        }
    }

    /// Whom `id` may hear at the second `now`: nobody, once the roster is too old.
    pub fn hears_of(&self, id: &SteamId, now: u64) -> (r: Vec<Heard>)
        ensures
            r.deep_view() == audible(self@, id@, now),
    {
        match self.find_source(id, now) {
            Some(i) => {
                assert(self@.servers[i as int] == self.servers@[i as int].deep_view());
                copy_heard(&self.servers[i].listeners, id)
            },
            None => {
                let r: Vec<Heard> = Vec::new();
                assert(r.deep_view() =~= Seq::<HeardView>::empty());
                r
            },
        }
    }
}

impl Roster {
    /// The order that puts right what is forwarded to `id`.
    fn settle(&self, id: &SteamId, now: u64) -> (r: Effect)
        ensures
            r.deep_view() == settled(self@, id@, now),
    {
        match self.find_source(id, now) {
            Some(i) => {
                assert(self@.servers[i as int] == self.servers@[i as int].deep_view());
                let hears = copy_heard(&self.servers[i].listeners, id);
                subscription_order(id, &hears)
            },
            None => mute_order(id),
        }
    }

    /// Orders that take the right to hear from those whom a roster dropped.
    fn order_drops(&self, before: &Vec<SteamId>, now: u64, at: usize, out: &mut Vec<Effect>)
        requires
            at < self.servers@.len(),
        ensures
            final(out).deep_view() == old(out).deep_view() + drops(
                self@,
                before.deep_view(),
                now,
                at as int,
            ),
    {
        let ghost start = out.deep_view();
        let ghost names = before.deep_view();
        let mut k: usize = 0;
        assert(start + drops(self@, names.take(0), now, at as int) =~= start);
        while k < before.len()
            invariant
                k <= before@.len(),
                at < self.servers@.len(),
                names == before.deep_view(),
                out.deep_view() == start + drops(self@, names.take(k as int), now, at as int),
            decreases before@.len() - k,
        {
            let ghost told = out.deep_view();
            let id = &before[k];
            assert(self@.servers[at as int] == self.servers@[at as int].deep_view());
            if self.revoke_on_death && !crate::text::contains(&self.servers[at].eligible, id) {
                out.push(self.settle(id, now));
                assert(out.deep_view() =~= told.push(settled(self@, id@, now)));
            }
            k = k + 1;
            assert(names.take(k as int).drop_last() =~= names.take(k - 1));
            assert(names.take(k as int).last() == names[k - 1]);
            assert(out.deep_view() =~= start + drops(self@, names.take(k as int), now, at as int));
        }
        assert(names.take(k as int) =~= names);
    }

    /// Orders that forward to the listeners of a server what they hear.
    fn order_resumes(&self, now: u64, at: usize, out: &mut Vec<Effect>)
        requires
            at < self.servers@.len(),
        ensures
            final(out).deep_view() == old(out).deep_view() + resumes(
                self@,
                self@.servers[at as int].listeners,
                now,
                at as int,
            ),
    {
        let ghost start = out.deep_view();
        let s = &self.servers[at];
        let ghost all = self@.servers[at as int].listeners;
        assert(all == s.listeners.deep_view());
        let mut k: usize = 0;
        assert(start + resumes(self@, all.take(0), now, at as int) =~= start);
        while k < s.listeners.len()
            invariant
                k <= s.listeners@.len(),
                at < self.servers@.len(),
                *s == self.servers@[at as int],
                all == s.listeners.deep_view(),
                all == self@.servers[at as int].listeners,
                out.deep_view() == start + resumes(self@, all.take(k as int), now, at as int),
            decreases s.listeners@.len() - k,
        {
            let ghost told = out.deep_view();
            let id = &s.listeners[k].id;
            if let Some(i) = self.find_source(id, now) {
                if i == at {
                    let hears = copy_heard(&s.listeners, id);
                    let e = subscription_order(id, &hears);
                    out.push(e);
                    assert(out.deep_view() =~= told.push(e.deep_view()));
                }
            }
            k = k + 1;
            assert(all.take(k as int).drop_last() =~= all.take(k - 1));
            assert(all.take(k as int).last() == all[k - 1]);
            assert(out.deep_view() =~= start + resumes(self@, all.take(k as int), now, at as int));
        }
        assert(all.take(k as int) =~= all);
    }

    /// News for those who are not in a server's graph any more.
    fn order_vanished(&self, before: &Vec<Listener>, now: u64, at: usize, out: &mut Vec<Effect>)
        requires
            at < self.servers@.len(),
        ensures
            final(out).deep_view() == old(out).deep_view() + vanished(
                self@,
                before.deep_view(),
                now,
                at as int,
            ),
    {
        let ghost start = out.deep_view();
        let ghost all = before.deep_view();
        let mut k: usize = 0;
        assert(start + vanished(self@, all.take(0), now, at as int) =~= start);
        while k < before.len()
            invariant
                k <= before@.len(),
                at < self.servers@.len(),
                all == before.deep_view(),
                out.deep_view() == start + vanished(self@, all.take(k as int), now, at as int),
            decreases before@.len() - k,
        {
            let ghost told = out.deep_view();
            let id = &before[k].id;
            let found = find_listener(&self.servers[at].listeners, id);
            proof {
                let s = self@.servers[at as int];
                assert(s.listeners == self.servers@[at as int].listeners.deep_view());
                if let Some(m) = found {
                    assert(s.listeners[m as int].id == id@);
                }
            }
            if found.is_none() {
                let order = self.settle(id, now);
                let hears = self.hears_of(id, now);
                let news = Effect::Tell(id.clone(), ServerMsg::Graph { hears });
                out.push(news);
                assert(out.deep_view() =~= told.push(news.deep_view()));
                out.push(order);
                assert(out.deep_view() =~= told.push(news.deep_view()).push(order.deep_view()));
            }
            k = k + 1;
            assert(all.take(k as int).drop_last() =~= all.take(k - 1));
            assert(all.take(k as int).last() == all[k - 1]);
            assert(out.deep_view() =~= start + vanished(self@, all.take(k as int), now, at as int));
        }
        assert(all.take(k as int) =~= all);
    }

    /// News for the listeners of a server's graph.
    fn order_graph_news(&self, now: u64, at: usize, out: &mut Vec<Effect>)
        requires
            at < self.servers@.len(),
        ensures
            final(out).deep_view() == old(out).deep_view() + graph_news(
                self@,
                self@.servers[at as int].listeners,
                now,
                at as int,
            ),
    {
        let ghost start = out.deep_view();
        let s = &self.servers[at];
        let ghost all = self@.servers[at as int].listeners;
        assert(all == s.listeners.deep_view());
        let mut k: usize = 0;
        assert(start + graph_news(self@, all.take(0), now, at as int) =~= start);
        while k < s.listeners.len()
            invariant
                k <= s.listeners@.len(),
                at < self.servers@.len(),
                *s == self.servers@[at as int],
                all == s.listeners.deep_view(),
                all == self@.servers[at as int].listeners,
                out.deep_view() == start + graph_news(self@, all.take(k as int), now, at as int),
            decreases s.listeners@.len() - k,
        {
            let ghost told = out.deep_view();
            let id = &s.listeners[k].id;
            if let Some(i) = self.find_source(id, now) {
                if i == at {
                    let hears = copy_heard(&s.listeners, id);
                    let order = subscription_order(id, &hears);
                    let news = Effect::Tell(id.clone(), ServerMsg::Graph { hears });
                    out.push(news);
                    assert(out.deep_view() =~= told.push(news.deep_view()));
                    out.push(order);
                    assert(out.deep_view() =~= told.push(news.deep_view()).push(order.deep_view()));
                }
            }
            k = k + 1;
            assert(all.take(k as int).drop_last() =~= all.take(k - 1));
            assert(all.take(k as int).last() == all[k - 1]);
            assert(out.deep_view() =~= start + graph_news(
                self@,
                all.take(k as int),
                now,
                at as int,
            ));
        }
        assert(all.take(k as int) =~= all);
    }

    /// Takes a roster, which came at the second `now`, in place of the one
    /// before it. Whoever it drops stops hearing, where the settings say so;
    /// the listeners who may hear are forwarded to, again where forwarding had
    /// stopped.
    pub fn apply_roster(&mut self, push: RosterPush, now: u64) -> (r: Result<
        Vec<Effect>,
        PushError,
    >)
        requires
            old(self).wf(),
        ensures
            final(self).wf(),
            ({
                let before = server(old(self)@, push.server_id@);
                let after = roster_taken(before, push.seq, push.eligible.deep_view(), now);
                let at = server_at(old(self)@, push.server_id@);
                if stale(before.roster_seq, push.seq) {
                    &&& r matches Err(PushError::StaleSeq)
                    &&& final(self)@ == old(self)@
                } else {
                    &&& final(self)@ == with_server(old(self)@, after)
                    &&& r matches Ok(effects)
                    &&& effects.deep_view() == drops(final(self)@, before.eligible, now, at)
                        + resumes(final(self)@, before.listeners, now, at)
                }
            }),
    {
        let ghost start = *self;
        let (at, mut s) = self.detach(&push.server_id);
        if is_stale(s.roster_seq, push.seq) {
            proof {
                with_itself(start@, push.server_id@);
            }
            self.attach(at, s, Ghost(start));
            return Err(PushError::StaleSeq);
        }
        let ghost known = s.deep_view();
        let mut before = push.eligible;
        std::mem::swap(&mut before, &mut s.eligible);
        s.roster_seq = Some(push.seq);
        s.received = Some(now);
        let ghost after = roster_taken(known, push.seq, push.eligible.deep_view(), now);
        assert(s.deep_view() =~= after);
        self.attach(at, s, Ghost(start));
        assert(self@.servers[at as int] == after);
        let mut out: Vec<Effect> = Vec::new();
        assert(out.deep_view() =~= Seq::<EffectView>::empty());
        self.order_drops(&before, now, at, &mut out);
        self.order_resumes(now, at, &mut out);
        assert(out.deep_view() =~= drops(self@, known.eligible, now, at as int) + resumes(
            self@,
            known.listeners,
            now,
            at as int,
        ));
        Ok(out)
    }
}

impl Roster {
    /// Takes an audibility graph in place of the one before it. Every listener
    /// who may hear at the second `now` is told and forwarded to what the
    /// graph says; one who is not in it any more hears nobody by this server.
    pub fn apply_graph(&mut self, push: GraphPush, now: u64) -> (r: Result<Vec<Effect>, PushError>)
        requires
            old(self).wf(),
        ensures
            final(self).wf(),
            ({
                let before = server(old(self)@, push.server_id@);
                let after = graph_taken(before, push.seq, push.listeners.deep_view());
                let at = server_at(old(self)@, push.server_id@);
                if stale(before.graph_seq, push.seq) {
                    &&& r matches Err(PushError::StaleSeq)
                    &&& final(self)@ == old(self)@
                } else {
                    &&& final(self)@ == with_server(old(self)@, after)
                    &&& r matches Ok(effects)
                    &&& effects.deep_view() == vanished(final(self)@, before.listeners, now, at)
                        + graph_news(final(self)@, after.listeners, now, at)
                }
            }),
    {
        let ghost start = *self;
        let (at, mut s) = self.detach(&push.server_id);
        if is_stale(s.graph_seq, push.seq) {
            proof {
                with_itself(start@, push.server_id@);
            }
            self.attach(at, s, Ghost(start));
            return Err(PushError::StaleSeq);
        }
        let ghost known = s.deep_view();
        let mut before = push.listeners;
        std::mem::swap(&mut before, &mut s.listeners);
        s.graph_seq = Some(push.seq);
        let ghost after = graph_taken(known, push.seq, push.listeners.deep_view());
        assert(s.deep_view() =~= after);
        self.attach(at, s, Ghost(start));
        assert(self@.servers[at as int] == after);
        let mut out: Vec<Effect> = Vec::new();
        assert(out.deep_view() =~= Seq::<EffectView>::empty());
        self.order_vanished(&before, now, at, &mut out);
        self.order_graph_news(now, at, &mut out);
        assert(out.deep_view() =~= vanished(self@, known.listeners, now, at as int) + graph_news(
            self@,
            after.listeners,
            now,
            at as int,
        ));
        Ok(out)
    }

    /// Takes the orientation of the listeners, each of whom is told.
    pub fn apply_yaw(&mut self, push: YawPush) -> (r: Result<Vec<Effect>, PushError>)
        requires
            old(self).wf(),
        ensures
            final(self).wf(),
            ({
                let before = server(old(self)@, push.server_id@);
                if stale(before.yaw_seq, push.seq) {
                    &&& r matches Err(PushError::StaleSeq)
                    &&& final(self)@ == old(self)@
                } else {
                    &&& final(self)@ == with_server(
                        old(self)@,
                        yaws_taken(before, push.seq, push.yaws.deep_view()),
                    )
                    &&& r matches Ok(effects)
                    &&& effects.deep_view() == yaw_news(push.yaws.deep_view())
                }
            }),
    {
        let ghost start = *self;
        let (at, mut s) = self.detach(&push.server_id);
        if is_stale(s.yaw_seq, push.seq) {
            proof {
                with_itself(start@, push.server_id@);
            }
            self.attach(at, s, Ghost(start));
            return Err(PushError::StaleSeq);
        }
        let ghost known = s.deep_view();
        let ghost news = yaw_news(push.yaws.deep_view());
        let mut out: Vec<Effect> = Vec::new();
        let mut k: usize = 0;
        while k < push.yaws.len()
            invariant
                k <= push.yaws@.len(),
                news == yaw_news(push.yaws.deep_view()),
                out@.len() == k,
                forall|j: int| 0 <= j < k ==> (#[trigger] out@[j]).deep_view() == news[j],
            decreases push.yaws@.len() - k,
        {
            let deg: u16 = push.yaws[k].1;
            let e = Effect::Tell(push.yaws[k].0.clone(), ServerMsg::Yaw { deg });
            assert(push.yaws.deep_view()[k as int] == push.yaws@[k as int].deep_view());
            assert(e.deep_view() =~= news[k as int]);
            out.push(e);
            k = k + 1;
        }
        assert(out.deep_view() =~= news);
        s.yaws = push.yaws;
        s.yaw_seq = Some(push.seq);
        assert(s.deep_view() =~= yaws_taken(known, push.seq, push.yaws.deep_view()));
        self.attach(at, s, Ghost(start));
        Ok(out)
    }

    /// Takes a push of the push-to-talk key, of which the player is told.
    pub fn apply_talk(&mut self, push: TalkPush) -> (r: Result<Vec<Effect>, PushError>)
        requires
            old(self).wf(),
        ensures
            final(self).wf(),
            ({
                let before = server(old(self)@, push.server_id@);
                if stale(before.talk_seq, push.seq) {
                    &&& r matches Err(PushError::StaleSeq)
                    &&& final(self)@ == old(self)@
                } else {
                    &&& final(self)@ == with_server(old(self)@, talk_taken(before, push.seq))
                    &&& r matches Ok(effects)
                    &&& effects.deep_view() == seq![
                        EffectView::Tell(push.id@, ServerMsgView::Talk { on: push.talking }),
                    ]
                }
            }),
    {
        let ghost start = *self;
        let (at, mut s) = self.detach(&push.server_id);
        if is_stale(s.talk_seq, push.seq) {
            proof {
                with_itself(start@, push.server_id@);
            }
            self.attach(at, s, Ghost(start));
            return Err(PushError::StaleSeq);
        }
        let ghost known = s.deep_view();
        s.talk_seq = Some(push.seq);
        assert(s.deep_view() =~= talk_taken(known, push.seq));
        self.attach(at, s, Ghost(start));
        let mut out: Vec<Effect> = Vec::new();
        let ghost id = push.id@;
        out.push(Effect::Tell(push.id, ServerMsg::Talk { on: push.talking }));
        assert(out.deep_view() =~= seq![
            EffectView::Tell(id, ServerMsgView::Talk { on: push.talking }),
        ]);
        Ok(out)
    }

    /// Orders that put right what is forwarded to `ids`.
    fn order_settlements(&self, ids: &Vec<SteamId>, now: u64, out: &mut Vec<Effect>)
        ensures
            final(out).deep_view() == old(out).deep_view() + settlements(
                self@,
                ids.deep_view(),
                now,
            ),
    {
        let ghost start = out.deep_view();
        let ghost all = ids.deep_view();
        let mut k: usize = 0;
        assert(start + settlements(self@, all.take(0), now) =~= start);
        while k < ids.len()
            invariant
                k <= ids@.len(),
                all == ids.deep_view(),
                out.deep_view() == start + settlements(self@, all.take(k as int), now),
            decreases ids@.len() - k,
        {
            let ghost told = out.deep_view();
            out.push(self.settle(&ids[k], now));
            assert(out.deep_view() =~= told.push(settled(self@, all[k as int], now)));
            k = k + 1;
            assert(out.deep_view() =~= start + settlements(self@, all.take(k as int), now));
        }
        assert(all.take(k as int) =~= all);
    }

    /// The orders that are due at the second `now` because rosters are too
    /// old: nothing is forwarded any more by those servers, and so to their
    /// players nothing but what another server lets them hear.
    pub fn expire(&self, now: u64) -> (r: Vec<Effect>)
        ensures
            r.deep_view() == expiries(self@, now, self@.servers.len() as int),
    {
        let mut out: Vec<Effect> = Vec::new();
        let mut i: usize = 0;
        assert(out.deep_view() =~= expiries(self@, now, 0));
        while i < self.servers.len()
            invariant
                i <= self.servers@.len(),
                out.deep_view() == expiries(self@, now, i as int),
            decreases self.servers@.len() - i,
        {
            let s = &self.servers[i];
            assert(self@.servers[i as int] == s.deep_view());
            if !s.is_in_force(now) {
                self.order_settlements(&s.eligible, now, &mut out);
                let mut names: Vec<SteamId> = Vec::new();
                let mut k: usize = 0;
                while k < s.listeners.len()
                    invariant
                        k <= s.listeners@.len(),
                        names@.len() == k,
                        forall|j: int| 0 <= j < k ==> (#[trigger] names@[j])@
                            == s.listeners@[j].id@,
                    decreases s.listeners@.len() - k,
                {
                    names.push(s.listeners[k].id.clone());
                    k = k + 1;
                }
                assert(names.deep_view() =~= listener_names(s.listeners.deep_view()));
                self.order_settlements(&names, now, &mut out);
            }
            i = i + 1;
        }
        out
    }

    /// The orientation of a listener, by the first server in force that says.
    pub fn yaw_of(&self, id: &SteamId, now: u64) -> (r: Option<u16>)
        ensures
            r == yaw_from(self@, id@, now, 0),
    {
        let mut i: usize = 0;
        while i < self.servers.len()
            invariant
                i <= self.servers@.len(),
                yaw_from(self@, id@, now, 0) == yaw_from(self@, id@, now, i as int),
            decreases self.servers@.len() - i,
        {
            let s = &self.servers[i];
            assert(self@.servers[i as int] == s.deep_view());
            if s.is_in_force(now) {
                let found = find_yaw(&s.yaws, id);
                if found.is_some() {
                    return found;
                }
            }
            i = i + 1;
        }
        None
    }

    /// The first server as a player of which `id` may connect.
    pub fn server_of(&self, id: &SteamId) -> (r: Option<ServerId>)
        requires
            self.wf(),
        ensures
            match r {
                Some(s) => eligible(self@, s@, id@) && forall|i: int|
                    0 <= i < server_at(self@, s@) ==> !eligible(
                        self@,
                        (#[trigger] self@.servers[i]).server_id,
                        id@,
                    ),
                None => forall|s: Seq<char>| !#[trigger] eligible(self@, s, id@),
            },
    {
        let mut i: usize = 0;
        while i < self.servers.len()
            invariant
                i <= self.servers@.len(),
                self.wf(),
                forall|k: int|
                    0 <= k < i ==> !eligible(
                        self@,
                        (#[trigger] self@.servers[k]).server_id,
                        id@,
                    ),
            decreases self.servers@.len() - i,
        {
            let name = self.servers[i].server_id.clone();
            assert(self@.servers[i as int].server_id == name@);
            if self.is_eligible(&name, id) {
                proof {
                    let p = server_at(self@, name@);
                    assert(has_server(self@, name@));
                    assert(self@.servers[p].server_id == name@);
                    assert(p == i);
                }
                return Some(name);
            }
            i = i + 1;
        }
        proof {
            assert forall|s: Seq<char>| !#[trigger] eligible(self@, s, id@) by {
                if has_server(self@, s) {
                    let k = server_at(self@, s);
                    assert(self@.servers[k].server_id == s);
                }
            }
        }
        None
    }
}

/// The first orientation of `id` in a list.
pub open spec fn yaw_in(yaws: Seq<(Seq<char>, u16)>, id: Seq<char>) -> Option<u16>
    decreases yaws.len(),
{
    if yaws.len() == 0 {
        None
    } else if yaws[0].0 == id {
        Some(yaws[0].1)
    } else {
        yaw_in(yaws.drop_first(), id)
    }
}

/// The orientation of `id` by the first server from place `i` on that is in force and says.
pub open spec fn yaw_from(r: RosterView, id: Seq<char>, now: u64, i: int) -> Option<u16>
    decreases r.servers.len() - i,
{
    if i >= r.servers.len() {
        None
    } else if in_force(r.servers[i], now) && yaw_in(r.servers[i].yaws, id) is Some {
        yaw_in(r.servers[i].yaws, id)
    } else {
        yaw_from(r, id, now, i + 1)
    }
}

fn find_yaw(yaws: &Vec<(SteamId, u16)>, id: &SteamId) -> (r: Option<u16>)
    ensures
        r == yaw_in(yaws.deep_view(), id@),
{
    let ghost view = yaws.deep_view();
    let mut k: usize = 0;
    assert(view.skip(0) =~= view);
    while k < yaws.len()
        invariant
            k <= yaws@.len(),
            view == yaws.deep_view(),
            yaw_in(view, id@) == yaw_in(view.skip(k as int), id@),
        decreases yaws@.len() - k,
    {
        assert(view.skip(k as int)[0] == view[k as int]);
        assert(view.skip(k as int).drop_first() =~= view.skip(k + 1));
        if yaws[k].0 == *id {
            return Some(yaws[k].1);
        }
        k = k + 1;
    }
    assert(view.skip(k as int).len() == 0);
    None
}

/// The server of a name bears that name, and to put it where it is changes nothing.
proof fn with_itself(r: RosterView, server_id: Seq<char>)
    requires
        roster_wf(r),
        has_server(r, server_id),
    ensures
        server(r, server_id).server_id == server_id,
        with_server(r, server(r, server_id)) == r,
{
    let at = server_at(r, server_id);
    assert(r.servers[at].server_id == server_id);
    assert(r.servers.update(at, r.servers[at]) =~= r.servers);
}

/// Whether `after` is `before` without the server of that name.
spec fn detached(before: Roster, after: Roster, server_id: Seq<char>) -> bool {
    &&& after.revoke_on_death == before.revoke_on_death
    &&& after.whitelist == before.whitelist
    &&& after.servers@ == (if has_server(before@, server_id) {
        before.servers@.remove(server_at(before@, server_id))
    } else {
        before.servers@
    })
}

/// The server that a push comes from, its number, and the number of the last
/// push of its kind from that server.
pub open spec fn numbered(r: RosterView, push: Push) -> (Seq<char>, u64, Option<u64>) {
    match push {
        Push::Roster(p) => (p.server_id@, p.seq, server(r, p.server_id@).roster_seq),
        Push::Graph(p) => (p.server_id@, p.seq, server(r, p.server_id@).graph_seq),
        Push::Yaw(p) => (p.server_id@, p.seq, server(r, p.server_id@).yaw_seq),
        Push::Talk(p) => (p.server_id@, p.seq, server(r, p.server_id@).talk_seq),
    }
}

/// Whether a push comes too late to be taken.
pub open spec fn too_late(r: RosterView, push: Push) -> bool {
    stale(numbered(r, push).2, numbered(r, push).1)
}

/// What is known once a push has been taken.
pub open spec fn pushed(r: RosterView, push: Push, now: u64) -> RosterView {
    let s = server(r, numbered(r, push).0);
    match push {
        Push::Roster(p) => with_server(r, roster_taken(s, p.seq, p.eligible.deep_view(), now)),
        Push::Graph(p) => with_server(r, graph_taken(s, p.seq, p.listeners.deep_view())),
        Push::Yaw(p) => with_server(r, yaws_taken(s, p.seq, p.yaws.deep_view())),
        Push::Talk(p) => with_server(r, talk_taken(s, p.seq)),
    }
}

/// What a push leads to.
pub open spec fn push_news(r: RosterView, push: Push, now: u64) -> Seq<EffectView> {
    let after = pushed(r, push, now);
    let s = server(r, numbered(r, push).0);
    let at = server_at(r, numbered(r, push).0);
    match push {
        Push::Roster(p) => drops(after, s.eligible, now, at) + resumes(after, s.listeners, now, at),
        Push::Graph(p) => vanished(after, s.listeners, now, at) + graph_news(
            after,
            p.listeners.deep_view(),
            now,
            at,
        ),
        Push::Yaw(p) => yaw_news(p.yaws.deep_view()),
        Push::Talk(p) => seq![EffectView::Tell(p.id@, ServerMsgView::Talk { on: p.talking })],
    }
}

impl Roster {
    /// Takes a push of any kind, which came at the second `now`.
    pub fn apply(&mut self, push: Push, now: u64) -> (r: Result<Vec<Effect>, PushError>)
        requires
            old(self).wf(),
        ensures
            final(self).wf(),
            if too_late(old(self)@, push) {
                &&& r matches Err(PushError::StaleSeq)
                &&& final(self)@ == old(self)@
            } else {
                &&& final(self)@ == pushed(old(self)@, push, now)
                &&& r matches Ok(effects)
                &&& effects.deep_view() == push_news(old(self)@, push, now)
            },
    {
        match push {
            Push::Roster(p) => self.apply_roster(p, now),
            Push::Graph(p) => self.apply_graph(p, now),
            Push::Yaw(p) => self.apply_yaw(p),
            Push::Talk(p) => self.apply_talk(p),
        }
    }
}

/// An effect is shown as what it is: an order with all that the order holds,
/// or a message with all that it holds and whom it is for.
pub proof fn effects_are_shown_whole(e: Effect)
    ensures
        e matches Effect::Order(command) ==> e.deep_view() == EffectView::Order(command.deep_view()),
        e matches Effect::Tell(id, msg) ==> e.deep_view() == EffectView::Tell(id@, msg.deep_view()),
{
}

} // verus!
