//! The forwarding table: whose voice goes to which listener, and in which slot.
//!
//! A listener's slots are set up once, with the offer. When the set of audible
//! speakers changes, slots change hands and nothing is negotiated anew.
use crate::proto::{ByeReason, ServerMsg, ServerMsgView, SteamId, SLOTS};
use crate::sdp::{media_names, mids};
use crate::slots::{
    browser_follows_departure, changes, copy_slots, fill, find_slot, nearest, reassigned, release,
    released, released_is_sound, report, seat_all_is_sound, seated, slot_of, slot_of_the_seated,
    slots_wf, the_nearest_have_slots, vacate, vacated, vacated_is_sound, Slot, SlotView,
};
use crate::state::{SfuCommand, SfuCommandView};
use vstd::prelude::*;
use vstd::string::*;

verus! {

/// One browser.
pub struct Session {
    pub steam_id: SteamId,
    pub slots: Vec<Slot>,
    /// Whether forwarding to this listener is stopped.
    pub muted: bool,
}

/// What a `Session` holds.
#[verifier::ext_equal]
pub struct SessionView {
    pub steam_id: Seq<char>,
    pub slots: Seq<SlotView>,
    pub muted: bool,
}

impl DeepView for Session {
    type V = SessionView;

    open spec fn deep_view(&self) -> SessionView {
        SessionView { steam_id: self.steam_id@, slots: self.slots.deep_view(), muted: self.muted }
    }
}

/// Why an order to the forwarding table fails.
#[derive(Debug, Clone, Copy, PartialEq, Eq, Structural)]
pub enum SfuError {
    /// The offer has not the microphone and the slots that it should have.
    BadOffer,
    /// The transport has no answer to the offer.
    NoAnswer,
    /// There is no session of that name.
    UnknownSession,
}

/// The forwarding table.
pub struct Sfu {
    udp_port: u16,
    sessions: Vec<Session>,
}

/// What an `Sfu` holds: its sessions in the order in which they came.
#[verifier::ext_equal]
pub struct SfuView {
    pub udp_port: u16,
    pub sessions: Seq<SessionView>,
}

impl View for Sfu {
    type V = SfuView;

    closed spec fn view(&self) -> SfuView {
        SfuView { udp_port: self.udp_port, sessions: self.sessions.deep_view() }
    }
}

/// A session that listens to the nearest of `speakers` from now on.
pub open spec fn subscribed(s: SessionView, speakers: Seq<Seq<char>>) -> SessionView {
    SessionView {
        steam_id: s.steam_id,
        slots: reassigned(s.slots, speakers),
        muted: false,
    }
}

/// A session to which nothing is forwarded.
pub open spec fn silenced(s: SessionView) -> SessionView {
    SessionView { muted: true, ..s }
}

/// Whether there is a session of that name.
pub open spec fn has_session(sessions: Seq<SessionView>, id: Seq<char>) -> bool {
    exists|i: int| 0 <= i < sessions.len() && (#[trigger] sessions[i]).steam_id == id
}

/// The place of the session of that name, where there is one.
pub open spec fn place(sessions: Seq<SessionView>, id: Seq<char>) -> int {
    choose|i: int| 0 <= i < sessions.len() && (#[trigger] sessions[i]).steam_id == id
}

/// Whether there is one session per name, each with sound slots.
pub open spec fn sessions_wf(sessions: Seq<SessionView>) -> bool {
    &&& forall|i: int| 0 <= i < sessions.len() ==> slots_wf((#[trigger] sessions[i]).slots)
    &&& forall|i: int, k: int|
        0 <= i < k < sessions.len() ==> (#[trigger] sessions[i]).steam_id != (
        #[trigger] sessions[k]).steam_id
}

/// Whether the voice of `speaker` goes to a session.
pub open spec fn forwards(s: SessionView, speaker: Seq<char>) -> bool {
    !s.muted && seated(s.slots, speaker)
}

/// Every listener to whom the voice of `speaker` goes, with the slot name.
pub open spec fn routes(sessions: Seq<SessionView>, speaker: Seq<char>) -> Seq<
    (Seq<char>, Seq<char>),
>
    decreases sessions.len(),
{
    if sessions.len() == 0 {
        seq![]
    } else {
        let rest = routes(sessions.drop_last(), speaker);
        let s = sessions.last();
        match slot_of(s.slots, speaker) {
            Some(mid) => if s.muted {
                rest
            } else {
                rest.push((s.steam_id, mid))
            },
            None => rest,
        }
    }
}

/// The sessions once `id` is gone, as a listener and as a speaker.
pub open spec fn departed(sessions: Seq<SessionView>, id: Seq<char>) -> Seq<SessionView>
    decreases sessions.len(),
{
    if sessions.len() == 0 {
        seq![]
    } else {
        let rest = departed(sessions.drop_last(), id);
        let s = sessions.last();
        if s.steam_id == id {
            rest
        } else {
            rest.push(SessionView { slots: vacated(s.slots, id), ..s })
        }
    }
}

/// Messages, each for one and the same session.
pub open spec fn addressed(to: Seq<char>, msgs: Seq<ServerMsgView>) -> Seq<
    (Seq<char>, ServerMsgView),
> {
    Seq::new(msgs.len(), |i: int| (to, msgs[i]))
}

/// What the others are told when `id` goes.
pub open spec fn farewells(sessions: Seq<SessionView>, id: Seq<char>) -> Seq<
    (Seq<char>, ServerMsgView),
>
    decreases sessions.len(),
{
    if sessions.len() == 0 {
        seq![]
    } else {
        let rest = farewells(sessions.drop_last(), id);
        let s = sessions.last();
        if s.steam_id == id {
            rest
        } else {
            rest + addressed(s.steam_id, changes(s.slots, vacated(s.slots, id)))
        }
    }
}

/// Whether an offer has a microphone and one section for each slot, each with a name of its own.
pub open spec fn well_offered(sdp: Seq<char>) -> bool {
    mids(sdp).len() == SLOTS + 1 && mids(sdp).no_duplicates()
}

/// A new session: the first section of the offer is the microphone, the others are free slots.
pub open spec fn fresh(id: Seq<char>, sdp: Seq<char>) -> SessionView {
    SessionView {
        steam_id: id,
        slots: Seq::new(SLOTS as nat, |j: int| SlotView { mid: mids(sdp)[j + 1], speaker: None }),
        muted: false,
    }
}

/// The sessions once `s` has come, in place of an earlier one of its name.
pub open spec fn joined(sessions: Seq<SessionView>, s: SessionView) -> Seq<SessionView> {
    if has_session(sessions, s.steam_id) {
        sessions.update(place(sessions, s.steam_id), s)
    } else {
        sessions.push(s)
    }
}

impl Sfu {
    /// Whether there is one session per name, each with sound slots.
    pub open spec fn wf(&self) -> bool {
        sessions_wf(self@.sessions)
    }

    /// An empty forwarding table for the voice port.
    pub fn new(udp_port: u16) -> (r: Sfu)
        ensures
            r.wf(),
            r@ == (SfuView { udp_port, sessions: seq![] }),
    {
        let r = Sfu { udp_port, sessions: Vec::new() };
        assert(r@.sessions =~= seq![]);
        r
    }

    /// The voice port.
    pub fn udp_port(&self) -> (r: u16)
        ensures
            r == self@.udp_port,
    {
        self.udp_port
    }

    fn find(&self, id: &SteamId) -> (r: Option<usize>)
        requires
            self.wf(),
        ensures
            match r {
                Some(i) => i < self.sessions@.len() && has_session(self@.sessions, id@) && i
                    == place(self@.sessions, id@),
                None => !has_session(self@.sessions, id@),
            },
    {
        let ghost view = self@.sessions;
        let mut i: usize = 0;
        while i < self.sessions.len()
            invariant
                i <= self.sessions@.len(),
                view == self@.sessions,
                sessions_wf(view),
                forall|k: int| 0 <= k < i ==> (#[trigger] view[k]).steam_id != id@,
            decreases self.sessions@.len() - i,
        {
            if self.sessions[i].steam_id == *id {
                proof {
                    assert(view[i as int].steam_id == id@);
                    let p = place(view, id@);
                    assert(view[p].steam_id == id@);
                    assert(p == i);
                }
                return Some(i);
            }
            i = i + 1;
        }
        None
    }

    /// Puts a session in the place of an earlier one.
    fn replace(&mut self, i: usize, s: Session)
        requires
            old(self).wf(),
            i < old(self).sessions@.len(),
            s.steam_id@ == old(self)@.sessions[i as int].steam_id,
            slots_wf(s.slots.deep_view()),
        ensures
            final(self).wf(),
            final(self)@ == (SfuView {
                sessions: old(self)@.sessions.update(i as int, s.deep_view()),
                ..old(self)@
            }),
    {
        let ghost before = self@.sessions;
        self.sessions.set(i, s);
        proof {
            assert(self@.sessions =~= before.update(i as int, s.deep_view()));
            let after = self@.sessions;
            assert forall|a: int, b: int| 0 <= a < b < after.len() implies (
            #[trigger] after[a]).steam_id != (#[trigger] after[b]).steam_id by {
                assert(before[a].steam_id != before[b].steam_id);
            }
            assert forall|a: int| 0 <= a < after.len() implies slots_wf(
                (#[trigger] after[a]).slots,
            ) by {
                assert(slots_wf(before[a].slots));
            }
        }
    }

    /// Takes an offer, with the answer that the transport gives to it, and sets
    /// up the slots that the offer names.
    pub fn accept_offer(&mut self, steam_id: &SteamId, sdp: &str, answer: Option<String>) -> (r:
        Result<String, SfuError>)
        requires
            old(self).wf(),
        ensures
            final(self).wf(),
            !well_offered(sdp@) ==> r == Err::<String, SfuError>(SfuError::BadOffer),
            well_offered(sdp@) && answer is None ==> r == Err::<String, SfuError>(
                SfuError::NoAnswer,
            ),
            well_offered(sdp@) && answer is Some ==> r == Ok::<String, SfuError>(answer->0),
            r is Err ==> final(self)@ == old(self)@,
            r is Ok ==> final(self)@ == (SfuView {
                sessions: joined(old(self)@.sessions, fresh(steam_id@, sdp@)),
                ..old(self)@
            }),
    {
        let names = media_names(sdp);
        if names.len() != SLOTS + 1 || !crate::text::all_distinct(&names) {
            return Err(SfuError::BadOffer);
        }
        let text = match answer {
            Some(text) => text,
            None => return Err(SfuError::NoAnswer),
        };
        let ghost wanted = fresh(steam_id@, sdp@);
        let mut slots: Vec<Slot> = Vec::new();
        let mut j: usize = 0;
        while j < SLOTS
            invariant
                j <= SLOTS,
                names@.len() == SLOTS + 1,
                names.deep_view() == mids(sdp@),
                wanted == fresh(steam_id@, sdp@),
                slots@.len() == j,
                forall|k: int|
                    0 <= k < j ==> (#[trigger] slots@[k]).deep_view() == wanted.slots[k],
            decreases SLOTS - j,
        {
            let slot = Slot { mid: names[j + 1].clone(), speaker: None };
            assert(names.deep_view()[j + 1] == slot.mid@);
            assert(slot.deep_view() =~= wanted.slots[j as int]);
            slots.push(slot);
            j = j + 1;
        }
        assert(slots.deep_view() =~= wanted.slots);
        let s = Session { steam_id: steam_id.clone(), slots, muted: false };
        assert(s.deep_view() =~= wanted);
        assert(slots_wf(wanted.slots));
        match self.find(steam_id) {
            Some(i) => {
                assert(old(self)@.sessions[i as int].steam_id == steam_id@);
                self.replace(i, s);
            },
            None => {
                let ghost before = self@.sessions;
                self.sessions.push(s);
                assert(self@.sessions =~= before.push(wanted));
            },
        }
        Ok(text)
    }

    /// Whom a listener is to hear from now on. The slots of those who are not
    /// among the nearest any more are freed, and nothing of them is forwarded;
    /// whoever is new gets a free slot. The messages are for the listener.
    pub fn set_subscriptions(&mut self, listener: &SteamId, speakers: &[SteamId]) -> (r: Result<
        Vec<ServerMsg>,
        SfuError,
    >)
        requires
            old(self).wf(),
        ensures
            final(self).wf(),
            match r {
                Ok(msgs) => {
                    let i = place(old(self)@.sessions, listener@);
                    let before = old(self)@.sessions[i];
                    let after = subscribed(before, speakers.deep_view());
                    &&& has_session(old(self)@.sessions, listener@)
                    &&& final(self)@ == (SfuView {
                        sessions: old(self)@.sessions.update(i, after),
                        ..old(self)@
                    })
                    &&& msgs.deep_view() == changes(before.slots, after.slots)
                },
                Err(e) => {
                    &&& e == SfuError::UnknownSession
                    &&& !has_session(old(self)@.sessions, listener@)
                    &&& final(self)@ == old(self)@
                },
            },
    {
        let i: usize = match self.find(listener) {
            Some(i) => i,
            None => return Err(SfuError::UnknownSession),
        };
        let mut wanted = crate::text::copy_ids(speakers);
        wanted.truncate(SLOTS);
        assert(wanted.deep_view() =~= nearest(speakers.deep_view()));
        let ghost before = self@.sessions[i as int];
        let kept = release(&self.sessions[i].slots, &wanted);
        let slots = fill(kept, &wanted);
        proof {
            released_is_sound(before.slots, wanted.deep_view());
            seat_all_is_sound(released(before.slots, wanted.deep_view()), wanted.deep_view());
        }
        let msgs = report(&self.sessions[i].slots, &slots);
        let s = Session { steam_id: self.sessions[i].steam_id.clone(), slots, muted: false };
        assert(s.deep_view() =~= subscribed(before, speakers.deep_view()));
        self.replace(i, s);
        Ok(msgs)
    }

    /// Stops forwarding to a listener, who stays connected and keeps the slots.
    pub fn mute_all(&mut self, listener: &SteamId) -> (r: Result<(), SfuError>)
        requires
            old(self).wf(),
        ensures
            final(self).wf(),
            match r {
                Ok(()) => {
                    let i = place(old(self)@.sessions, listener@);
                    &&& has_session(old(self)@.sessions, listener@)
                    &&& final(self)@ == (SfuView {
                        sessions: old(self)@.sessions.update(
                            i,
                            silenced(old(self)@.sessions[i]),
                        ),
                        ..old(self)@
                    })
                },
                Err(e) => {
                    &&& e == SfuError::UnknownSession
                    &&& !has_session(old(self)@.sessions, listener@)
                    &&& final(self)@ == old(self)@
                },
            },
    {
        let i: usize = match self.find(listener) {
            Some(i) => i,
            None => return Err(SfuError::UnknownSession),
        };
        let ghost before = self@.sessions[i as int];
        let s = Session {
            steam_id: self.sessions[i].steam_id.clone(),
            slots: copy_slots(&self.sessions[i].slots),
            muted: true,
        };
        assert(s.deep_view() =~= silenced(before));
        self.replace(i, s);
        Ok(())
    }
}

/// Puts messages for one session behind those that are there.
fn address(out: &mut Vec<(SteamId, ServerMsg)>, to: &SteamId, msgs: Vec<ServerMsg>)
    ensures
        final(out).deep_view() == old(out).deep_view() + addressed(to@, msgs.deep_view()),
{
    let ghost before = out.deep_view();
    let ghost all = addressed(to@, msgs.deep_view());
    for m in it: msgs
        invariant
            it.seq() == msgs@,
            all == addressed(to@, msgs.deep_view()),
            out.deep_view() == before + all.take(it.index() as int),
    {
        let ghost told = out.deep_view();
        let ghost k = it.index() as int;
        out.push((to.clone(), m));
        assert(out.deep_view() =~= told.push((to@, m.deep_view())));
        assert(all.take(k + 1) =~= all.take(k).push(all[k]));
    }
    assert(all.take(all.len() as int) =~= all);
}

/// Everyone who stays is there under the same name, in the same order, with no slot of `id`.
/// A departure keeps the table sound, and whoever is there afterwards was there before.
pub proof fn departed_is_sound(sessions: Seq<SessionView>, id: Seq<char>)
    requires
        sessions_wf(sessions),
    ensures
        sessions_wf(departed(sessions, id)),
        forall|i: int|
            0 <= i < departed(sessions, id).len() ==> exists|k: int|
                0 <= k < sessions.len() && (#[trigger] departed(sessions, id)[i]) == (SessionView {
                    slots: vacated(sessions[k].slots, id),
                    ..#[trigger] sessions[k]
                }) && sessions[k].steam_id != id,
    decreases sessions.len(),
{
    if sessions.len() > 0 {
        let init = sessions.drop_last();
        let s = sessions.last();
        let rest = departed(init, id);
        let all = departed(sessions, id);
        assert(sessions_wf(init)) by {
            assert forall|i: int, k: int| 0 <= i < k < init.len() implies (
            #[trigger] init[i]).steam_id != (#[trigger] init[k]).steam_id by {
                assert(sessions[i].steam_id != sessions[k].steam_id);
            }
            assert forall|i: int| 0 <= i < init.len() implies slots_wf(
                (#[trigger] init[i]).slots,
            ) by {
                assert(slots_wf(sessions[i].slots));
            }
        }
        departed_is_sound(init, id);
        assert(slots_wf(s.slots));
        vacated_is_sound(s.slots, id);
        assert forall|i: int| 0 <= i < all.len() implies exists|k: int|
            0 <= k < sessions.len() && (#[trigger] all[i]) == (SessionView {
                slots: vacated(sessions[k].slots, id),
                ..#[trigger] sessions[k]
            }) && sessions[k].steam_id != id by {
            if i < rest.len() {
                assert(all[i] == rest[i]);
                let k = choose|k: int|
                    0 <= k < init.len() && rest[i] == (SessionView {
                        slots: vacated(init[k].slots, id),
                        ..#[trigger] init[k]
                    }) && init[k].steam_id != id;
                assert(sessions[k] == init[k]);
            } else {
                assert(sessions[sessions.len() - 1] == s);
            }
        }
        if s.steam_id != id {
            assert forall|i: int, k: int| 0 <= i < k < all.len() implies (
            #[trigger] all[i]).steam_id != (#[trigger] all[k]).steam_id by {
                if k == rest.len() {
                    assert(all[i] == rest[i]);
                    let m = choose|m: int|
                        0 <= m < init.len() && rest[i] == (SessionView {
                            slots: vacated(init[m].slots, id),
                            ..#[trigger] init[m]
                        }) && init[m].steam_id != id;
                    assert(sessions[m].steam_id != sessions[sessions.len() - 1].steam_id);
                } else {
                    assert(all[i] == rest[i] && all[k] == rest[k]);
                }
            }
            assert forall|i: int| 0 <= i < all.len() implies slots_wf(
                (#[trigger] all[i]).slots,
            ) by {
                if i < rest.len() {
                    assert(all[i] == rest[i]);
                }
            }
        }
    }
}

impl Sfu {
    /// Where the voice of `speaker` goes: each listener with the slot name.
    pub fn destinations(&self, speaker: &SteamId) -> (r: Vec<(SteamId, String)>)
        ensures
            r.deep_view() == routes(self@.sessions, speaker@),
    {
        let ghost view = self@.sessions;
        let mut out: Vec<(SteamId, String)> = Vec::new();
        let mut i: usize = 0;
        assert(out.deep_view() =~= routes(view.take(0), speaker@));
        while i < self.sessions.len()
            invariant
                i <= self.sessions@.len(),
                view == self@.sessions,
                out.deep_view() == routes(view.take(i as int), speaker@),
            decreases self.sessions@.len() - i,
        {
            let ghost told = out.deep_view();
            let s = &self.sessions[i];
            assert(view[i as int] == s.deep_view());
            if !s.muted {
                if let Some(mid) = find_slot(&s.slots, speaker) {
                    out.push((s.steam_id.clone(), mid));
                    assert(out.deep_view() =~= told.push((s.steam_id@, mid@)));
                }
            }
            i = i + 1;
            assert(view.take(i as int).drop_last() =~= view.take(i - 1));
            assert(view.take(i as int).last() == view[i - 1]);
        }
        assert(view.take(i as int) =~= view);
        out
    }

    /// Ends a session, and frees the slots in which the others heard it. Each
    /// message is for the session that it comes with.
    pub fn disconnect(&mut self, id: &SteamId) -> (r: Vec<(SteamId, ServerMsg)>)
        requires
            old(self).wf(),
        ensures
            final(self).wf(),
            final(self)@ == (SfuView {
                sessions: departed(old(self)@.sessions, id@),
                ..old(self)@
            }),
            r.deep_view() == farewells(old(self)@.sessions, id@),
    {
        let ghost view = self@.sessions;
        let mut left: Vec<Session> = Vec::new();
        let mut out: Vec<(SteamId, ServerMsg)> = Vec::new();
        let mut i: usize = 0;
        assert(left.deep_view() =~= departed(view.take(0), id@));
        assert(out.deep_view() =~= farewells(view.take(0), id@));
        while i < self.sessions.len()
            invariant
                i <= self.sessions@.len(),
                view == self@.sessions,
                left.deep_view() == departed(view.take(i as int), id@),
                out.deep_view() == farewells(view.take(i as int), id@),
            decreases self.sessions@.len() - i,
        {
            let s = &self.sessions[i];
            let ghost stayed = left.deep_view();
            assert(view[i as int] == s.deep_view());
            if s.steam_id != *id {
                let slots = vacate(&s.slots, id);
                assert(slots.deep_view().len() == s.slots.deep_view().len());
                let msgs = report(&s.slots, &slots);
                address(&mut out, &s.steam_id, msgs);
                let kept = Session { steam_id: s.steam_id.clone(), slots, muted: s.muted };
                left.push(kept);
                assert(left.deep_view() =~= stayed.push(kept.deep_view()));
            }
            i = i + 1;
            assert(view.take(i as int).drop_last() =~= view.take(i - 1));
            assert(view.take(i as int).last() == view[i - 1]);
        }
        assert(view.take(i as int) =~= view);
        proof {
            departed_is_sound(view, id@);
        }
        self.sessions = left;
        out
    }
}

/// What whoever gave an order is told.
#[derive(Debug)]
pub enum Reply {
    /// The order has no reply.
    Nothing,
    /// The answer to an offer.
    Answer(Result<String, SfuError>),
    /// Whether the subscriptions are set.
    Subscribed(Result<(), SfuError>),
}

/// What an order leads to, beyond the forwarding table.
#[derive(Debug)]
pub struct Outcome {
    pub reply: Reply,
    /// Messages, each with the session that it is for.
    pub tell: Vec<(SteamId, ServerMsg)>,
    /// A session that is to be told why it ends, and closed.
    pub bye: Option<(SteamId, ByeReason)>,
}

/// Whether an order, with the transport's answer where it is an offer, takes
/// the table from `before` to `after` and leads to `out`.
pub open spec fn obeyed(
    before: SfuView,
    command: SfuCommandView,
    answer: Option<String>,
    after: SfuView,
    out: Outcome,
) -> bool {
    match command {
        SfuCommandView::AcceptOffer { steam_id, sdp } => {
            &&& out.tell.deep_view() == Seq::<(Seq<char>, ServerMsgView)>::empty()
            &&& out.bye is None
            &&& if !well_offered(sdp) {
                out.reply == Reply::Answer(Err(SfuError::BadOffer)) && after == before
            } else if answer is None {
                out.reply == Reply::Answer(Err(SfuError::NoAnswer)) && after == before
            } else {
                &&& out.reply == Reply::Answer(Ok(answer->0))
                &&& after == (SfuView {
                    sessions: joined(before.sessions, fresh(steam_id, sdp)),
                    ..before
                })
            }
        },
        SfuCommandView::Ice { .. } => {
            &&& out.reply is Nothing
            &&& out.tell.deep_view() == Seq::<(Seq<char>, ServerMsgView)>::empty()
            &&& out.bye is None
            &&& after == before
        },
        SfuCommandView::SetSubscriptions { listener, speakers } => {
            let i = place(before.sessions, listener);
            let s = before.sessions[i];
            &&& out.bye is None
            &&& if has_session(before.sessions, listener) {
                &&& out.reply == Reply::Subscribed(Ok(()))
                &&& out.tell.deep_view() == addressed(
                    listener,
                    changes(s.slots, subscribed(s, speakers).slots),
                )
                &&& after == (SfuView {
                    sessions: before.sessions.update(i, subscribed(s, speakers)),
                    ..before
                })
            } else {
                &&& out.reply == Reply::Subscribed(Err(SfuError::UnknownSession))
                &&& out.tell.deep_view() == Seq::<(Seq<char>, ServerMsgView)>::empty()
                &&& after == before
            }
        },
        SfuCommandView::MuteAll { listener } => {
            let i = place(before.sessions, listener);
            &&& out.reply is Nothing
            &&& out.tell.deep_view() == Seq::<(Seq<char>, ServerMsgView)>::empty()
            &&& out.bye is None
            &&& after == if has_session(before.sessions, listener) {
                SfuView {
                    sessions: before.sessions.update(i, silenced(before.sessions[i])),
                    ..before
                }
            } else {
                before
            }
        },
        SfuCommandView::Disconnect { steam_id, reason } => {
            &&& out.reply is Nothing
            &&& out.tell.deep_view() == farewells(before.sessions, steam_id)
            &&& out.bye matches Some((who, why)) && who@ == steam_id && why == reason
            &&& after == (SfuView { sessions: departed(before.sessions, steam_id), ..before })
        },
        SfuCommandView::Supersede { steam_id } => {
            &&& out.reply is Nothing
            &&& out.tell.deep_view() == farewells(before.sessions, steam_id)
            &&& out.bye is None
            &&& after == (SfuView { sessions: departed(before.sessions, steam_id), ..before })
        },
    }
}

impl Sfu {
    /// Obeys one order. `answer` is what the transport answers to the offer,
    /// where the order is one.
    pub fn step(&mut self, command: &SfuCommand, answer: Option<String>) -> (r: Outcome)
        requires
            old(self).wf(),
        ensures
            final(self).wf(),
            obeyed(old(self)@, command.deep_view(), answer, final(self)@, r),
    {
        let mut tell: Vec<(SteamId, ServerMsg)> = Vec::new();
        assert(tell.deep_view() =~= Seq::<(Seq<char>, ServerMsgView)>::empty());
        match command {
            SfuCommand::AcceptOffer { steam_id, sdp } => {
                let result = self.accept_offer(steam_id, sdp.as_str(), answer);
                Outcome { reply: Reply::Answer(result), tell, bye: None }
            },
            SfuCommand::Ice { .. } => Outcome { reply: Reply::Nothing, tell, bye: None },
            SfuCommand::SetSubscriptions { listener, speakers } => {
                match self.set_subscriptions(listener, speakers.as_slice()) {
                    Ok(msgs) => {
                        let ghost all = addressed(listener@, msgs.deep_view());
                        address(&mut tell, listener, msgs);
                        assert(tell.deep_view() =~= all);
                        Outcome { reply: Reply::Subscribed(Ok(())), tell, bye: None }
                    },
                    Err(e) => Outcome { reply: Reply::Subscribed(Err(e)), tell, bye: None },
                }
            },
            SfuCommand::MuteAll { listener } => {
                let _ = self.mute_all(listener);
                Outcome { reply: Reply::Nothing, tell, bye: None }
            },
            SfuCommand::Disconnect { steam_id, reason } => {
                let told = self.disconnect(steam_id);
                Outcome { reply: Reply::Nothing, tell: told, bye: Some((steam_id.clone(), *reason)) }
            },
            SfuCommand::Supersede { steam_id } => {
                let told = self.disconnect(steam_id);
                Outcome { reply: Reply::Nothing, tell: told, bye: None }
            },
        }
    }
}

/// A listener is sent the voices of the nearest speakers and no other: whoever
/// leaves the set is not forwarded any more.
pub proof fn only_the_nearest_are_forwarded(
    s: SessionView,
    speakers: Seq<Seq<char>>,
    who: Seq<char>,
)
    requires
        slots_wf(s.slots),
    ensures
        forwards(subscribed(s, speakers), who) <==> nearest(speakers).contains(who),
{
    the_nearest_have_slots(s.slots, speakers, who);
}

/// New subscriptions keep the slots of a session sound.
pub proof fn subscribed_is_sound(s: SessionView, speakers: Seq<Seq<char>>)
    requires
        slots_wf(s.slots),
    ensures
        slots_wf(subscribed(s, speakers).slots),
{
    released_is_sound(s.slots, nearest(speakers));
    seat_all_is_sound(released(s.slots, nearest(speakers)), nearest(speakers));
}

/// A muted listener is sent nothing, is there still with every slot, and
/// hears again after the next subscriptions as if never muted.
pub proof fn muting_is_not_leaving(s: SessionView, speakers: Seq<Seq<char>>, who: Seq<char>)
    ensures
        !forwards(silenced(s), who),
        silenced(s).steam_id == s.steam_id,
        silenced(s).slots == s.slots,
        subscribed(silenced(s), speakers) == subscribed(s, speakers),
{
}

/// A new session is sent nothing.
pub proof fn a_new_session_hears_nobody(id: Seq<char>, sdp: Seq<char>, who: Seq<char>)
    requires
        well_offered(sdp),
    ensures
        slots_wf(fresh(id, sdp).slots),
        !forwards(fresh(id, sdp), who),
{
    assert forall|j: int, k: int| 0 <= j < k < SLOTS implies (
    #[trigger] fresh(id, sdp).slots[j]).mid != (#[trigger] fresh(id, sdp).slots[k]).mid by {
        assert(mids(sdp)[j + 1] != mids(sdp)[k + 1]);
    }
}

/// A voice goes to the listeners for whom it is forwarded, each once, and to
/// no one else.
pub proof fn routes_are_forwardings(sessions: Seq<SessionView>, speaker: Seq<char>)
    ensures
        forall|n: int|
            0 <= n < routes(sessions, speaker).len() ==> exists|i: int|
                0 <= i < sessions.len() && forwards(#[trigger] sessions[i], speaker) && (
                #[trigger] routes(sessions, speaker)[n]) == (
                    sessions[i].steam_id,
                    slot_of(sessions[i].slots, speaker)->0,
                ),
        forall|i: int|
            0 <= i < sessions.len() && forwards(#[trigger] sessions[i], speaker) ==> routes(
                sessions,
                speaker,
            ).contains((sessions[i].steam_id, slot_of(sessions[i].slots, speaker)->0)),
        routes(sessions, speaker).len() <= sessions.len(),
    decreases sessions.len(),
{
    if sessions.len() > 0 {
        let init = sessions.drop_last();
        let s = sessions.last();
        let rest = routes(init, speaker);
        let all = routes(sessions, speaker);
        routes_are_forwardings(init, speaker);
        slot_of_the_seated(s.slots, speaker);
        assert(sessions[sessions.len() - 1] == s);
        assert forall|n: int| 0 <= n < all.len() implies exists|i: int|
            0 <= i < sessions.len() && forwards(#[trigger] sessions[i], speaker) && (
            #[trigger] all[n]) == (
                sessions[i].steam_id,
                slot_of(sessions[i].slots, speaker)->0,
            ) by {
            if n < rest.len() {
                assert(all[n] == rest[n]);
                let i = choose|i: int|
                    0 <= i < init.len() && forwards(#[trigger] init[i], speaker) && rest[n] == (
                        init[i].steam_id,
                        slot_of(init[i].slots, speaker)->0,
                    );
                assert(sessions[i] == init[i]);
            }
        }
        assert forall|i: int|
            0 <= i < sessions.len() && forwards(#[trigger] sessions[i], speaker) implies all.contains(
        (sessions[i].steam_id, slot_of(sessions[i].slots, speaker)->0)) by {
            let route = (sessions[i].steam_id, slot_of(sessions[i].slots, speaker)->0);
            if i < init.len() {
                assert(init[i] == sessions[i]);
                let n = choose|n: int| 0 <= n < rest.len() && rest[n] == route;
                assert(all[n] == route);
            } else {
                assert(all[rest.len() as int] == route);
            }
        }
    }
}

/// Once a session has gone it is not there any more, no voice goes to it, and
/// its own voice goes to no one.
pub proof fn departure_is_complete(
    sessions: Seq<SessionView>,
    id: Seq<char>,
    speaker: Seq<char>,
)
    requires
        sessions_wf(sessions),
    ensures
        !has_session(departed(sessions, id), id),
        forall|n: int|
            0 <= n < routes(departed(sessions, id), speaker).len() ==> (#[trigger] routes(
                departed(sessions, id),
                speaker,
            )[n]).0 != id,
        routes(departed(sessions, id), id) == Seq::<(Seq<char>, Seq<char>)>::empty(),
{
    let after = departed(sessions, id);
    departed_is_sound(sessions, id);
    assert forall|i: int| 0 <= i < after.len() implies (#[trigger] after[i]).steam_id != id
        && !seated(after[i].slots, id) by {
        let k = choose|k: int|
            0 <= k < sessions.len() && after[i] == (SessionView {
                slots: vacated(sessions[k].slots, id),
                ..#[trigger] sessions[k]
            }) && sessions[k].steam_id != id;
        assert(slots_wf(sessions[k].slots));
        browser_follows_departure(sessions[k].slots, id);
    }
    routes_are_forwardings(after, id);
    if routes(after, id).len() > 0 {
        let first = routes(after, id)[0];
        assert(false);
    }
    routes_are_forwardings(after, speaker);
}

} // verus!
