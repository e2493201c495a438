//! The signalling hub: which connection speaks for whom, and what each one is
//! to be sent.
use crate::proto::{ByeReason, ClientMsg, ServerId, ServerMsg, ServerMsgView, SteamId};
use crate::state::{SfuCommand, SfuCommandView};
use vstd::prelude::*;

verus! {

/// A message for one connection.
#[derive(Debug)]
pub struct Delivery {
    pub conn: u64,
    pub msg: ServerMsg,
    /// Whether the connection is to be closed after this message.
    pub last: bool,
}

/// What a `Delivery` holds.
#[verifier::ext_equal]
pub struct DeliveryView {
    pub conn: u64,
    pub msg: ServerMsgView,
    pub last: bool,
}

impl DeepView for Delivery {
    type V = DeliveryView;

    open spec fn deep_view(&self) -> DeliveryView {
        DeliveryView { conn: self.conn, msg: self.msg.deep_view(), last: self.last }
    }
}

/// Why the hub fails.
#[derive(Debug, Clone, Copy, PartialEq, Eq, Structural)]
pub enum HubError {
    /// Nobody of that name is connected.
    NotConnected,
    /// There is no number left for a connection.
    Exhausted,
}

/// The connections, and the messages that wait for them.
pub struct Hub {
    next: u64,
    live: Vec<(SteamId, u64)>,
    queue: Vec<Delivery>,
}

/// What a `Hub` holds.
#[verifier::ext_equal]
pub struct HubView {
    /// The number of the next connection.
    pub next: u64,
    /// The connection that speaks for each name.
    pub live: Map<Seq<char>, u64>,
    /// What waits, the oldest first.
    pub queue: Seq<DeliveryView>,
}

/// Pairs as a map.
pub open spec fn as_map(pairs: Seq<(Seq<char>, u64)>) -> Map<Seq<char>, u64>
    decreases pairs.len(),
{
    if pairs.len() == 0 {
        Map::empty()
    } else {
        as_map(pairs.drop_last()).insert(pairs.last().0, pairs.last().1)
    }
}

/// Whether no name is in two pairs.
pub open spec fn one_pair_each(pairs: Seq<(Seq<char>, u64)>) -> bool {
    forall|i: int, k: int|
        0 <= i < k < pairs.len() ==> (#[trigger] pairs[i]).0 != (#[trigger] pairs[k]).0
}

impl View for Hub {
    type V = HubView;

    closed spec fn view(&self) -> HubView {
        HubView {
            next: self.next,
            live: as_map(self.live.deep_view()),
            queue: self.queue.deep_view(),
        }
    }
}

/// Whether a hub is sound: no connection speaks for two names, and one that is
/// told goodbye speaks for nobody and is told nothing after that.
pub open spec fn hub_wf(h: HubView) -> bool {
    &&& forall|id: Seq<char>| #[trigger] h.live.contains_key(id) ==> h.live[id] < h.next
    &&& forall|a: Seq<char>, b: Seq<char>|
        #[trigger] h.live.contains_key(a) && #[trigger] h.live.contains_key(b) && a != b
            ==> h.live[a] != h.live[b]
    &&& forall|i: int| 0 <= i < h.queue.len() ==> (#[trigger] h.queue[i]).conn < h.next
    &&& forall|i: int, id: Seq<char>|
        0 <= i < h.queue.len() && (#[trigger] h.queue[i]).last && #[trigger] h.live.contains_key(id)
            ==> h.live[id] != h.queue[i].conn
    &&& forall|i: int, k: int|
        0 <= i < k < h.queue.len() && (#[trigger] h.queue[i]).last ==> (#[trigger] h.queue[k]).conn
            != h.queue[i].conn
}

/// A goodbye.
pub open spec fn goodbye(conn: u64, reason: ByeReason) -> DeliveryView {
    DeliveryView { conn, msg: ServerMsgView::Bye { reason }, last: true }
}

/// The hub without the connection of `id`, which is told goodbye.
pub open spec fn closed(h: HubView, id: Seq<char>, reason: ByeReason) -> HubView {
    if h.live.contains_key(id) {
        HubView {
            live: h.live.remove(id),
            queue: h.queue.push(goodbye(h.live[id], reason)),
            ..h
        }
    } else {
        h
    }
}

/// The hub once a new connection speaks for `id`.
pub open spec fn registered(h: HubView, id: Seq<char>) -> HubView {
    let rest = closed(h, id, ByeReason::DuplicateSession);
    HubView { next: (h.next + 1) as u64, live: rest.live.insert(id, h.next), ..rest }
}

/// The hub once `msg` waits for `id`.
pub open spec fn sent(h: HubView, id: Seq<char>, msg: ServerMsgView) -> HubView {
    HubView { queue: h.queue.push(DeliveryView { conn: h.live[id], msg, last: false }), ..h }
}

/// The hub once the connection `conn` is lost.
pub open spec fn left(h: HubView, conn: u64) -> HubView {
    HubView {
        live: h.live.remove_keys(Set::new(|id: Seq<char>| h.live.contains_key(id) && h.live[id] == conn)),
        ..h
    }
}

proof fn as_map_entries(pairs: Seq<(Seq<char>, u64)>)
    requires
        one_pair_each(pairs),
    ensures
        forall|id: Seq<char>| #[trigger]
            as_map(pairs).contains_key(id) <==> exists|i: int|
                0 <= i < pairs.len() && (#[trigger] pairs[i]).0 == id,
        forall|i: int|
            0 <= i < pairs.len() ==> as_map(pairs).contains_key((#[trigger] pairs[i]).0) && as_map(
                pairs,
            )[pairs[i].0] == pairs[i].1,
    decreases pairs.len(),
{
    if pairs.len() > 0 {
        let init = pairs.drop_last();
        let last = pairs.last();
        assert(one_pair_each(init)) by {
            assert forall|i: int, k: int| 0 <= i < k < init.len() implies (#[trigger] init[i]).0 != (
            #[trigger] init[k]).0 by {
                assert(pairs[i].0 != pairs[k].0);
            }
        }
        as_map_entries(init);
        assert forall|id: Seq<char>| #[trigger]
            as_map(pairs).contains_key(id) <==> exists|i: int|
                0 <= i < pairs.len() && (#[trigger] pairs[i]).0 == id by {
            if as_map(init).contains_key(id) {
                let i = choose|i: int| 0 <= i < init.len() && (#[trigger] init[i]).0 == id;
                assert(pairs[i].0 == id);
            }
            if id == last.0 {
                assert(pairs[pairs.len() - 1].0 == id);
            }
            if exists|i: int| 0 <= i < pairs.len() && (#[trigger] pairs[i]).0 == id {
                let i = choose|i: int| 0 <= i < pairs.len() && (#[trigger] pairs[i]).0 == id;
                if i < init.len() {
                    assert(init[i].0 == id);
                }
            }
        }
        assert forall|i: int| 0 <= i < pairs.len() implies as_map(pairs).contains_key(
            (#[trigger] pairs[i]).0,
        ) && as_map(pairs)[pairs[i].0] == pairs[i].1 by {
            if i < init.len() {
                assert(init[i] == pairs[i]);
                assert(pairs[i].0 != pairs[pairs.len() - 1].0);
            }
        }
    }
}

proof fn as_map_remove(pairs: Seq<(Seq<char>, u64)>, at: int)
    requires
        one_pair_each(pairs),
        0 <= at < pairs.len(),
    ensures
        one_pair_each(pairs.remove(at)),
        as_map(pairs.remove(at)) == as_map(pairs).remove(pairs[at].0),
{
    let rest = pairs.remove(at);
    assert forall|i: int, k: int| 0 <= i < k < rest.len() implies (#[trigger] rest[i]).0 != (
    #[trigger] rest[k]).0 by {
        let a = if i < at {
            i
        } else {
            i + 1
        };
        let b = if k < at {
            k
        } else {
            k + 1
        };
        assert(pairs[a].0 != pairs[b].0);
    }
    as_map_entries(pairs);
    as_map_entries(rest);
    let gone = pairs[at].0;
    assert forall|id: Seq<char>| #[trigger] as_map(rest).contains_key(id) <==> as_map(pairs).remove(
        gone,
    ).contains_key(id) by {
        if as_map(rest).contains_key(id) {
            let i = choose|i: int| 0 <= i < rest.len() && (#[trigger] rest[i]).0 == id;
            let a = if i < at {
                i
            } else {
                i + 1
            };
            assert(pairs[a] == rest[i]);
            if a < at {
                assert(pairs[a].0 != pairs[at].0);
            } else {
                assert(pairs[at].0 != pairs[a].0);
            }
        }
        if as_map(pairs).remove(gone).contains_key(id) {
            let a = choose|a: int| 0 <= a < pairs.len() && (#[trigger] pairs[a]).0 == id;
            let i = if a < at {
                a
            } else {
                a - 1
            };
            assert(rest[i] == pairs[a]);
        }
    }
    assert forall|id: Seq<char>| #[trigger] as_map(rest).contains_key(id) implies as_map(rest)[id]
        == as_map(pairs).remove(gone)[id] by {
        let i = choose|i: int| 0 <= i < rest.len() && (#[trigger] rest[i]).0 == id;
        let a = if i < at {
            i
        } else {
            i + 1
        };
        assert(pairs[a] == rest[i]);
    }
    assert(as_map(rest) =~= as_map(pairs).remove(gone));
}

impl Hub {
    /// Whether the hub is sound.
    pub closed spec fn wf(&self) -> bool {
        one_pair_each(self.live.deep_view()) && hub_wf(self@)
    }

    /// What soundness means to a caller.
    pub proof fn sound(&self)
        requires
            self.wf(),
        ensures
            hub_wf(self@),
    {
    }

    /// A hub without connections.
    pub fn new() -> (r: Hub)
        ensures
            r.wf(),
            r@ == (HubView { next: 0, live: Map::empty(), queue: seq![] }),
    {
        let r = Hub { next: 0, live: Vec::new(), queue: Vec::new() };
        assert(r@.queue =~= seq![]);
        assert(r.live.deep_view().len() == 0);
        r
    }

    fn find(&self, id: &SteamId) -> (r: Option<usize>)
        requires
            self.wf(),
        ensures
            match r {
                Some(i) => i < self.live@.len() && self.live@[i as int].0@ == id@
                    && self@.live.contains_key(id@) && self@.live[id@] == self.live@[i as int].1,
                None => !self@.live.contains_key(id@),
            },
    {
        let ghost pairs = self.live.deep_view();
        proof {
            as_map_entries(pairs);
        }
        let mut i: usize = 0;
        while i < self.live.len()
            invariant
                i <= self.live@.len(),
                self.wf(),
                pairs == self.live.deep_view(),
                forall|k: int| 0 <= k < i ==> (#[trigger] pairs[k]).0 != id@,
            decreases self.live@.len() - i,
        {
            if self.live[i].0 == *id {
                proof {
                    as_map_entries(pairs);
                    assert(pairs[i as int].0 == id@);
                }
                return Some(i);
            }
            i = i + 1;
        }
        None
    }

    /// The connection that speaks for `id`.
    pub fn connection(&self, id: &SteamId) -> (r: Option<u64>)
        requires
            self.wf(),
        ensures
            r == (if self@.live.contains_key(id@) {
                Some(self@.live[id@])
            } else {
                None
            }),
    {
        match self.find(id) {
            Some(i) => Some(self.live[i].1),
            None => None,
        }
    }

    /// Ends the connection of `id`, if there is one: it is told why, and closed.
    pub fn close(&mut self, id: &SteamId, reason: ByeReason)
        requires
            old(self).wf(),
        ensures
            final(self).wf(),
            final(self)@ == closed(old(self)@, id@, reason),
    {
        if let Some(i) = self.find(id) {
            let ghost before = self@;
            let ghost pairs = self.live.deep_view();
            let (_, conn) = self.live.remove(i);
            proof {
                as_map_remove(pairs, i as int);
                assert(self.live.deep_view() =~= pairs.remove(i as int));
            }
            let bye = Delivery { conn, msg: ServerMsg::Bye { reason }, last: true };
            self.queue.push(bye);
            assert(self@.queue =~= before.queue.push(goodbye(conn, reason)));
            assert(self@ =~= closed(before, id@, reason));
        }
    }

    /// Lets a new connection speak for an authenticated player. An earlier one
    /// of that player is told goodbye and closed: the last one wins. The
    /// result is the number of the new connection.
    pub fn register(&mut self, steam_id: SteamId) -> (r: Result<u64, HubError>)
        requires
            old(self).wf(),
        ensures
            final(self).wf(),
            old(self)@.next == u64::MAX ==> r == Err::<u64, HubError>(HubError::Exhausted)
                && final(self)@ == old(self)@,
            old(self)@.next < u64::MAX ==> r == Ok::<u64, HubError>(old(self)@.next)
                && final(self)@ == registered(old(self)@, steam_id@),
    {
        if self.next == u64::MAX {
            return Err(HubError::Exhausted);
        }
        let conn: u64 = self.next;
        let ghost start = self@;
        self.close(&steam_id, ByeReason::DuplicateSession);
        let ghost before = self@;
        let ghost pairs = self.live.deep_view();
        let ghost id = steam_id@;
        self.next = conn + 1;
        self.live.push((steam_id, conn));
        proof {
            let after = self.live.deep_view();
            assert(after =~= pairs.push((id, conn)));
            assert(after.drop_last() =~= pairs);
            as_map_entries(pairs);
            assert(one_pair_each(after)) by {
                assert forall|i: int, k: int| 0 <= i < k < after.len() implies (
                #[trigger] after[i]).0 != (#[trigger] after[k]).0 by {
                    if k == pairs.len() {
                        assert(as_map(pairs).contains_key(pairs[i].0));
                        assert(!before.live.contains_key(id));
                    } else {
                        assert(pairs[i].0 != pairs[k].0);
                    }
                }
            }
            assert(self@ =~= registered(start, id));
        }
        Ok(conn)
    }

    /// Puts a message for `steam_id` behind those that wait.
    pub fn send(&mut self, steam_id: &SteamId, msg: ServerMsg) -> (r: Result<(), HubError>)
        requires
            old(self).wf(),
        ensures
            final(self).wf(),
            old(self)@.live.contains_key(steam_id@) ==> r == Ok::<(), HubError>(())
                && final(self)@ == sent(old(self)@, steam_id@, msg.deep_view()),
            !old(self)@.live.contains_key(steam_id@) ==> r == Err::<(), HubError>(
                HubError::NotConnected,
            ) && final(self)@ == old(self)@,
    {
        match self.find(steam_id) {
            Some(i) => {
                let ghost before = self@;
                let conn: u64 = self.live[i].1;
                let d = Delivery { conn, msg, last: false };
                self.queue.push(d);
                assert(self@.queue =~= before.queue.push(d.deep_view()));
                Ok(())
            },
            None => Err(HubError::NotConnected),
        }
    }

    /// Forgets a connection that is lost. Whoever has connected anew in the
    /// meantime is not touched.
    pub fn leave(&mut self, conn: u64)
        requires
            old(self).wf(),
        ensures
            final(self).wf(),
            final(self)@ == left(old(self)@, conn),
    {
        let ghost before = self@;
        let ghost pairs = self.live.deep_view();
        let mut i: usize = 0;
        while i < self.live.len()
            invariant
                i <= self.live@.len(),
                before == old(self)@,
                self@ == before,
                self.wf(),
                pairs == self.live.deep_view(),
                forall|k: int| 0 <= k < i ==> (#[trigger] pairs[k]).1 != conn,
            decreases self.live@.len() - i,
        {
            if self.live[i].1 == conn {
                let ghost id = pairs[i as int].0;
                let _ = self.live.remove(i);
                proof {
                    as_map_entries(pairs);
                    as_map_remove(pairs, i as int);
                    assert(self.live.deep_view() =~= pairs.remove(i as int));
                    assert(before.live.contains_key(id) && before.live[id] == conn);
                    assert(self@.live =~= left(before, conn).live);
                    assert(self@ =~= left(before, conn));
                }
                return;
            }
            i = i + 1;
        }
        proof {
            as_map_entries(pairs);
            assert forall|id: Seq<char>| #[trigger] before.live.contains_key(id) implies before.live[id]
                != conn by {
                let k = choose|k: int| 0 <= k < pairs.len() && (#[trigger] pairs[k]).0 == id;
                assert(pairs[k].1 != conn);
            }
            assert(before.live =~= left(before, conn).live);
        }
    }

    /// Takes out all that waits, the oldest first.
    pub fn drain(&mut self) -> (r: Vec<Delivery>)
        requires
            old(self).wf(),
        ensures
            final(self).wf(),
            r.deep_view() == old(self)@.queue,
            final(self)@ == (HubView { queue: seq![], ..old(self)@ }),
    {
        let mut out: Vec<Delivery> = Vec::new();
        std::mem::swap(&mut out, &mut self.queue);
        assert(self@.queue =~= seq![]);
        out
    }
}

impl Default for Hub {
    fn default() -> (r: Hub)
        ensures
            r.wf(),
            r@ == (HubView { next: 0, live: Map::empty(), queue: seq![] }),
    {
        Hub::new()
    }
}

/// What a message of a browser leads to.
#[derive(Debug)]
pub enum ClientStep {
    /// The browser is told something at once.
    Tell(ServerMsg),
    /// The forwarding loop gets an order.
    Order(SfuCommand),
}

/// Whether `step` is what a message of the browser of `steam_id` leads to.
pub open spec fn mediated(
    steam_id: Seq<char>,
    server_id: Seq<char>,
    msg: ClientMsg,
    step: ClientStep,
) -> bool {
    match (msg, step) {
        (ClientMsg::Hello { .. }, ClientStep::Tell(told)) => told.deep_view()
            == (ServerMsgView::Ready { steam_id, server_id }),
        (ClientMsg::SdpOffer { sdp }, ClientStep::Order(order)) => order.deep_view()
            == (SfuCommandView::AcceptOffer { steam_id, sdp: sdp@ }),
        (ClientMsg::Ice { candidate }, ClientStep::Order(order)) => order.deep_view()
            == (SfuCommandView::Ice { steam_id, candidate }),
        (_, _) => false,
    }
}

/// Says what a message of the browser of `steam_id` leads to.
pub fn mediate(steam_id: &SteamId, server_id: &ServerId, msg: ClientMsg) -> (r: ClientStep)
    ensures
        mediated(steam_id@, server_id@, msg, r),
{
    match msg {
        ClientMsg::Hello { .. } => ClientStep::Tell(
            ServerMsg::Ready { steam_id: steam_id.clone(), server_id: server_id.clone() },
        ),
        ClientMsg::SdpOffer { sdp } => ClientStep::Order(
            SfuCommand::AcceptOffer { steam_id: steam_id.clone(), sdp },
        ),
        ClientMsg::Ice { candidate } => ClientStep::Order(
            SfuCommand::Ice { steam_id: steam_id.clone(), candidate },
        ),
    }
}

/// The last connection of a player wins: an earlier one is told that the
/// session is a duplicate, and closed; the new one speaks for the player from
/// then on, and no other player is touched.
pub proof fn the_last_connection_wins(h: HubView, id: Seq<char>, other: Seq<char>)
    requires
        hub_wf(h),
        h.next < u64::MAX,
        other != id,
    ensures
        registered(h, id).live.contains_key(id),
        registered(h, id).live[id] == h.next,
        h.live.contains_key(id) ==> registered(h, id).queue == h.queue.push(
            goodbye(h.live[id], ByeReason::DuplicateSession),
        ) && h.live[id] != h.next,
        !h.live.contains_key(id) ==> registered(h, id).queue == h.queue,
        registered(h, id).live.contains_key(other) <==> h.live.contains_key(other),
        h.live.contains_key(other) ==> registered(h, id).live[other] == h.live[other],
        hub_wf(registered(h, id)),
{
}

/// A message goes to the connection that came last, not to one before it.
pub proof fn messages_reach_the_last_connection(h: HubView, id: Seq<char>, msg: ServerMsgView)
    requires
        hub_wf(h),
        h.next < u64::MAX,
    ensures
        sent(registered(h, id), id, msg).queue.last() == (DeliveryView {
            conn: h.next,
            msg,
            last: false,
        }),
        h.live.contains_key(id) ==> h.live[id] != h.next,
{
}

/// The loss of a connection that has been replaced does not touch the one that
/// replaced it.
pub proof fn a_late_loss_is_harmless(h: HubView, id: Seq<char>)
    requires
        hub_wf(h),
        h.next < u64::MAX,
        h.live.contains_key(id),
    ensures
        left(registered(h, id), h.live[id]).live.contains_key(id),
        left(registered(h, id), h.live[id]).live[id] == h.next,
{
}

/// What happens to one player in the hub happens to no other. A message waits
/// behind all others, for the connection that speaks for the player, and does
/// not end it. A connection that is closed gets its reason as its last message
/// and speaks for nobody any more. One that is lost speaks for nobody any
/// more, and what waits still waits.
pub proof fn the_hub_name_by_name(
    h: HubView,
    id: Seq<char>,
    other: Seq<char>,
    msg: ServerMsgView,
    reason: ByeReason,
    conn: u64,
)
    ensures
        h.live.contains_key(id) ==> {
            let s = sent(h, id, msg);
            let c = closed(h, id, reason);
            &&& s.next == h.next
            &&& s.live == h.live
            &&& s.queue.len() == h.queue.len() + 1
            &&& s.queue.drop_last() == h.queue
            &&& s.queue.last().conn == h.live[id]
            &&& s.queue.last().msg == msg
            &&& !s.queue.last().last
            &&& c.next == h.next
            &&& !c.live.contains_key(id)
            &&& c.queue.len() == h.queue.len() + 1
            &&& c.queue.drop_last() == h.queue
            &&& c.queue.last().conn == h.live[id]
            &&& c.queue.last().msg == (ServerMsgView::Bye { reason })
            &&& c.queue.last().last
        },
        !h.live.contains_key(id) ==> closed(h, id, reason) == h,
        other != id ==> (closed(h, id, reason).live.contains_key(other) <==> h.live.contains_key(other)),
        other != id && h.live.contains_key(other) ==> closed(h, id, reason).live[other]
            == h.live[other],
        left(h, conn).next == h.next,
        left(h, conn).queue == h.queue,
        left(h, conn).live.contains_key(other) <==> h.live.contains_key(other) && h.live[other] != conn,
        left(h, conn).live.contains_key(other) ==> left(h, conn).live[other] == h.live[other],
{
    if h.live.contains_key(id) {
        assert(sent(h, id, msg).queue.drop_last() =~= h.queue);
        assert(closed(h, id, reason).queue.drop_last() =~= h.queue);
    }
}

/// A greeting of a browser is answered with who it is and where; an offer and
/// a candidate go to the forwarding loop, under the name of the player.
pub proof fn messages_are_mediated(
    steam_id: Seq<char>,
    server_id: Seq<char>,
    msg: ClientMsg,
    step: ClientStep,
)
    requires
        mediated(steam_id, server_id, msg, step),
    ensures
        msg is Hello ==> (step matches ClientStep::Tell(told) && told.deep_view() == (
        ServerMsgView::Ready { steam_id, server_id })),
        msg matches ClientMsg::SdpOffer { sdp } ==> (step matches ClientStep::Order(order)
            && order.deep_view() == (SfuCommandView::AcceptOffer { steam_id, sdp: sdp@ })),
        msg matches ClientMsg::Ice { candidate } ==> (step matches ClientStep::Order(order)
            && order.deep_view() == (SfuCommandView::Ice { steam_id, candidate })),
{
}

/// A delivery is shown with its connection, all of its message, and whether it
/// is the last.
pub proof fn deliveries_are_shown_whole(a: Delivery, b: Delivery)
    requires
        a.deep_view() == b.deep_view(),
    ensures
        a.conn == b.conn,
        a.last == b.last,
        a.msg.deep_view() == b.msg.deep_view(),
{
}

} // verus!
