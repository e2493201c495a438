//! The receiving slots of one listener and how they change hands.
use crate::proto::{ServerMsg, ServerMsgView, SteamId, SLOTS};
use vstd::prelude::*;

verus! {

/// One receiving slot of a browser.
pub struct Slot {
    pub mid: String,
    pub speaker: Option<SteamId>,
}

/// What a `Slot` holds.
#[verifier::ext_equal]
pub struct SlotView {
    pub mid: Seq<char>,
    pub speaker: Option<Seq<char>>,
}

impl DeepView for Slot {
    type V = SlotView;

    open spec fn deep_view(&self) -> SlotView {
        SlotView { mid: self.mid@, speaker: self.speaker.deep_view() }
    }
}

/// Whether `who` has a slot.
pub open spec fn seated(slots: Seq<SlotView>, who: Seq<char>) -> bool {
    exists|j: int| 0 <= j < slots.len() && (#[trigger] slots[j]).speaker == Some(who)
}

/// The first free slot, or the number of slots where none is free.
pub open spec fn first_free(slots: Seq<SlotView>) -> int
    decreases slots.len(),
{
    if slots.len() == 0 || slots[0].speaker is None {
        0
    } else {
        1 + first_free(slots.drop_first())
    }
}

/// A slot in another hand.
pub open spec fn handed(slot: SlotView, speaker: Option<Seq<char>>) -> SlotView {
    SlotView { mid: slot.mid, speaker }
}

/// The slots with those freed whose speaker is not wanted any more.
pub open spec fn released(slots: Seq<SlotView>, wanted: Seq<Seq<char>>) -> Seq<SlotView> {
    Seq::new(
        slots.len(),
        |j: int|
            match slots[j].speaker {
                Some(who) => if wanted.contains(who) {
                    slots[j]
                } else {
                    handed(slots[j], None)
                },
                None => slots[j],
            },
    )
}

/// The slots with `who` in the first free one, unless `who` has one already.
pub open spec fn seat(slots: Seq<SlotView>, who: Seq<char>) -> Seq<SlotView> {
    if seated(slots, who) || first_free(slots) >= slots.len() {
        slots
    } else {
        slots.update(first_free(slots), handed(slots[first_free(slots)], Some(who)))
    }
}

/// The slots once all of `wanted` are seated, the first first.
pub open spec fn seat_all(slots: Seq<SlotView>, wanted: Seq<Seq<char>>) -> Seq<SlotView>
    decreases wanted.len(),
{
    if wanted.len() == 0 {
        slots
    } else {
        seat(seat_all(slots, wanted.drop_last()), wanted.last())
    }
}

/// The speakers for whom there are slots: the nearest ones.
pub open spec fn nearest(speakers: Seq<Seq<char>>) -> Seq<Seq<char>> {
    if speakers.len() <= SLOTS {
        speakers
    } else {
        speakers.take(SLOTS as int)
    }
}

/// One message for each slot of which the speaker is another now, in the order of the slots.
pub open spec fn changes(before: Seq<SlotView>, after: Seq<SlotView>) -> Seq<ServerMsgView>
    decreases after.len(),
{
    if after.len() == 0 {
        seq![]
    } else {
        let rest = changes(before.drop_last(), after.drop_last());
        if before.last().speaker == after.last().speaker {
            rest
        } else {
            rest.push(ServerMsgView::Peer { mid: after.last().mid, id: after.last().speaker })
        }
    }
}

/// Whether no two slots have one name and no speaker has two slots.
pub open spec fn slots_wf(slots: Seq<SlotView>) -> bool {
    &&& slots.len() == SLOTS
    &&& forall|j: int, k: int|
        0 <= j < k < slots.len() ==> (#[trigger] slots[j]).mid != (#[trigger] slots[k]).mid
    &&& forall|j: int, k: int|
        0 <= j < k < slots.len() && (#[trigger] slots[j]).speaker is Some ==> slots[j].speaker != (
        #[trigger] slots[k]).speaker
}

/// The slot name under which the voice of `speaker` goes out.
pub open spec fn slot_of(slots: Seq<SlotView>, speaker: Seq<char>) -> Option<Seq<char>>
    decreases slots.len(),
{
    if slots.len() == 0 {
        None
    } else if slots[0].speaker == Some(speaker) {
        Some(slots[0].mid)
    } else {
        slot_of(slots.drop_first(), speaker)
    }
}

/// The slots with those freed that `id` has.
pub open spec fn vacated(slots: Seq<SlotView>, id: Seq<char>) -> Seq<SlotView> {
    Seq::new(
        slots.len(),
        |j: int|
            if slots[j].speaker == Some(id) {
                handed(slots[j], None)
            } else {
                slots[j]
            },
    )
}

pub(crate) fn copy_slot(slot: &Slot) -> (r: Slot)
    ensures
        r == *slot,
{
    Slot {
        mid: slot.mid.clone(),
        speaker: match &slot.speaker {
            Some(who) => Some(who.clone()),
            None => None,
        },
    }
}

pub(crate) fn is_seated(slots: &Vec<Slot>, who: &SteamId) -> (r: bool)
    ensures
        r == seated(slots.deep_view(), who@),
{
    let ghost view = slots.deep_view();
    let mut j: usize = 0;
    while j < slots.len()
        invariant
            j <= slots@.len(),
            view == slots.deep_view(),
            forall|k: int| 0 <= k < j ==> (#[trigger] view[k]).speaker != Some(who@),
        decreases slots@.len() - j,
    {
        if let Some(other) = &slots[j].speaker {
            if *other == *who {
                assert(view[j as int].speaker == Some(who@));
                return true;
            }
        }
        j = j + 1;
    }
    false
}

pub(crate) fn find_free(slots: &Vec<Slot>) -> (r: usize)
    ensures
        r == first_free(slots.deep_view()),
        r <= slots@.len(),
{
    let ghost view = slots.deep_view();
    let mut j: usize = 0;
    assert(view.skip(0) =~= view);
    while j < slots.len()
        invariant
            j <= slots@.len(),
            view == slots.deep_view(),
            first_free(view) == j + first_free(view.skip(j as int)),
        decreases slots@.len() - j,
    {
        assert(view.skip(j as int)[0] == view[j as int]);
        assert(view.skip(j as int).drop_first() =~= view.skip(j + 1));
        if slots[j].speaker.is_none() {
            return j;
        }
        j = j + 1;
    }
    j
}

pub(crate) fn release(slots: &Vec<Slot>, wanted: &Vec<SteamId>) -> (r: Vec<Slot>)
    ensures
        r.deep_view() == released(slots.deep_view(), wanted.deep_view()),
{
    let ghost after = released(slots.deep_view(), wanted.deep_view());
    let mut out: Vec<Slot> = Vec::new();
    let mut j: usize = 0;
    while j < slots.len()
        invariant
            j <= slots@.len(),
            after == released(slots.deep_view(), wanted.deep_view()),
            out@.len() == j,
            forall|k: int| 0 <= k < j ==> (#[trigger] out@[k]).deep_view() == after[k],
        decreases slots@.len() - j,
    {
        let mut slot = copy_slot(&slots[j]);
        if let Some(who) = &slots[j].speaker {
            if !crate::text::contains(wanted, who) {
                slot.speaker = None;
            }
        }
        assert(slot.deep_view() =~= after[j as int]);
        out.push(slot);
        j = j + 1;
    }
    assert(out.deep_view() =~= after);
    out
}

/// Seats all of `wanted`.
pub(crate) fn fill(slots: Vec<Slot>, wanted: &Vec<SteamId>) -> (r: Vec<Slot>)
    ensures
        r.deep_view() == seat_all(slots.deep_view(), wanted.deep_view()),
{
    let ghost start = slots.deep_view();
    let ghost names = wanted.deep_view();
    let mut out = slots;
    let mut i: usize = 0;
    while i < wanted.len()
        invariant
            i <= wanted@.len(),
            names == wanted.deep_view(),
            out.deep_view() == seat_all(start, names.take(i as int)),
        decreases wanted@.len() - i,
    {
        let who = &wanted[i];
        let ghost before = out.deep_view();
        if !is_seated(&out, who) {
            let free: usize = find_free(&out);
            if free < out.len() {
                let slot = Slot { mid: out[free].mid.clone(), speaker: Some(who.clone()) };
                out.set(free, slot);
            }
        }
        assert(out.deep_view() =~= seat(before, who@));
        i = i + 1;
        assert(names.take(i as int).drop_last() =~= names.take(i - 1));
    }
    assert(names.take(i as int) =~= names);
    out
}

pub(crate) fn same_speaker(a: &Option<SteamId>, b: &Option<SteamId>) -> (r: bool)
    ensures
        r == (a.deep_view() == b.deep_view()),
{
    match (a, b) {
        (Some(x), Some(y)) => *x == *y,
        (None, None) => true,
        (_, _) => false,
    }
}

/// One message for each slot that changed hands.
pub(crate) fn report(before: &Vec<Slot>, after: &Vec<Slot>) -> (r: Vec<ServerMsg>)
    requires
        before@.len() == after@.len(),
    ensures
        r.deep_view() == changes(before.deep_view(), after.deep_view()),
{
    let ghost b = before.deep_view();
    let ghost a = after.deep_view();
    let mut out: Vec<ServerMsg> = Vec::new();
    let mut j: usize = 0;
    assert(out.deep_view() =~= changes(b.take(0), a.take(0)));
    while j < after.len()
        invariant
            j <= after@.len(),
            before@.len() == after@.len(),
            b == before.deep_view(),
            a == after.deep_view(),
            out.deep_view() == changes(b.take(j as int), a.take(j as int)),
        decreases after@.len() - j,
    {
        let ghost told = out.deep_view();
        if !same_speaker(&before[j].speaker, &after[j].speaker) {
            let slot = copy_slot(&after[j]);
            let ghost msg = ServerMsgView::Peer { mid: a[j as int].mid, id: a[j as int].speaker };
            out.push(ServerMsg::Peer { mid: slot.mid, id: slot.speaker });
            assert(out.deep_view() =~= told.push(msg));
        }
        j = j + 1;
        assert(b.take(j as int).drop_last() =~= b.take(j - 1));
        assert(a.take(j as int).drop_last() =~= a.take(j - 1));
    }
    assert(b.take(j as int) =~= b);
    assert(a.take(j as int) =~= a);
    out
}

/// What there is to know of the first free slot.
pub proof fn first_free_is_free(slots: Seq<SlotView>)
    ensures
        0 <= first_free(slots) <= slots.len(),
        first_free(slots) < slots.len() ==> slots[first_free(slots)].speaker is None,
        forall|j: int| 0 <= j < first_free(slots) ==> (#[trigger] slots[j]).speaker is Some,
    decreases slots.len(),
{
    if slots.len() > 0 && slots[0].speaker is Some {
        let rest = slots.drop_first();
        first_free_is_free(rest);
        assert forall|j: int| 0 <= j < first_free(slots) implies (
        #[trigger] slots[j]).speaker is Some by {
            if j > 0 {
                assert(slots[j] == rest[j - 1]);
            }
        }
    }
}

/// Whether `after` has the names of `before`, and whoever had a slot has it still.
pub open spec fn keeps(before: Seq<SlotView>, after: Seq<SlotView>) -> bool {
    &&& after.len() == before.len()
    &&& forall|j: int| 0 <= j < before.len() ==> (#[trigger] after[j]).mid == before[j].mid
    &&& forall|j: int|
        0 <= j < before.len() && before[j].speaker is Some ==> (#[trigger] after[j]).speaker
            == before[j].speaker
}

/// Whether whoever has a slot is in `wanted`.
pub open spec fn only(slots: Seq<SlotView>, wanted: Seq<Seq<char>>) -> bool {
    forall|j: int|
        0 <= j < slots.len() && (#[trigger] slots[j]).speaker is Some ==> wanted.contains(
            slots[j].speaker->0,
        )
}

/// Freeing what is not wanted keeps the slots sound, and leaves nobody seated who is not wanted.
pub proof fn released_is_sound(slots: Seq<SlotView>, wanted: Seq<Seq<char>>)
    requires
        slots_wf(slots),
    ensures
        slots_wf(released(slots, wanted)),
        only(released(slots, wanted), wanted),
{
    let after = released(slots, wanted);
    assert forall|j: int, k: int| 0 <= j < k < after.len() implies (#[trigger] after[j]).mid != (
    #[trigger] after[k]).mid by {
        assert(slots[j].mid != slots[k].mid);
    }
    assert forall|j: int, k: int|
        0 <= j < k < after.len() && (
        #[trigger] after[j]).speaker is Some implies after[j].speaker != (
    #[trigger] after[k]).speaker by {
        assert(slots[j].speaker != slots[k].speaker);
    }
}

/// Seating one speaker keeps the slots sound, and whoever sits stays.
pub proof fn seat_is_sound(slots: Seq<SlotView>, who: Seq<char>)
    requires
        slots_wf(slots),
    ensures
        slots_wf(seat(slots, who)),
        keeps(slots, seat(slots, who)),
{
    first_free_is_free(slots);
    let after = seat(slots, who);
    assert forall|j: int, k: int|
        0 <= j < k < after.len() && (
        #[trigger] after[j]).speaker is Some implies after[j].speaker != (
    #[trigger] after[k]).speaker by {
        assert(slots[j].speaker is Some ==> slots[j].speaker != slots[k].speaker);
        assert(slots[j].speaker != Some(who) || seated(slots, who));
        assert(slots[k].speaker != Some(who) || seated(slots, who));
    }
    assert forall|j: int, k: int| 0 <= j < k < after.len() implies (#[trigger] after[j]).mid != (
    #[trigger] after[k]).mid by {
        assert(slots[j].mid != slots[k].mid);
    }
}

/// Seating all who are wanted keeps the slots sound, and whoever sits stays.
pub proof fn seat_all_is_sound(slots: Seq<SlotView>, wanted: Seq<Seq<char>>)
    requires
        slots_wf(slots),
    ensures
        slots_wf(seat_all(slots, wanted)),
        keeps(slots, seat_all(slots, wanted)),
    decreases wanted.len(),
{
    if wanted.len() > 0 {
        let mid = seat_all(slots, wanted.drop_last());
        seat_all_is_sound(slots, wanted.drop_last());
        seat_is_sound(mid, wanted.last());
        let after = seat_all(slots, wanted);
        assert forall|j: int| 0 <= j < slots.len() implies (#[trigger] after[j]).mid
            == slots[j].mid by {
            assert(mid[j].mid == slots[j].mid);
        }
        assert forall|j: int| 0 <= j < slots.len() && slots[j].speaker is Some implies (
        #[trigger] after[j]).speaker == slots[j].speaker by {
            assert(mid[j].speaker == slots[j].speaker);
        }
    }
}

pub(crate) fn copy_slots(slots: &Vec<Slot>) -> (r: Vec<Slot>)
    ensures
        r.deep_view() == slots.deep_view(),
{
    let mut out: Vec<Slot> = Vec::new();
    let mut j: usize = 0;
    while j < slots.len()
        invariant
            j <= slots@.len(),
            out@ == slots@.take(j as int),
        decreases slots@.len() - j,
    {
        out.push(copy_slot(&slots[j]));
        j = j + 1;
        assert(slots@.take(j as int) =~= slots@.take(j - 1).push(slots@[j - 1]));
    }
    assert(slots@.take(j as int) =~= slots@);
    out
}

/// Frees the slots that `id` has.
pub(crate) fn vacate(slots: &Vec<Slot>, id: &SteamId) -> (r: Vec<Slot>)
    ensures
        r.deep_view() == vacated(slots.deep_view(), id@),
{
    let ghost after = vacated(slots.deep_view(), id@);
    let mut out: Vec<Slot> = Vec::new();
    let mut j: usize = 0;
    while j < slots.len()
        invariant
            j <= slots@.len(),
            after == vacated(slots.deep_view(), id@),
            out@.len() == j,
            forall|k: int| 0 <= k < j ==> (#[trigger] out@[k]).deep_view() == after[k],
        decreases slots@.len() - j,
    {
        let mut slot = copy_slot(&slots[j]);
        if let Some(who) = &slots[j].speaker {
            if *who == *id {
                slot.speaker = None;
            }
        }
        assert(slot.deep_view() =~= after[j as int]);
        out.push(slot);
        j = j + 1;
    }
    assert(out.deep_view() =~= after);
    out
}

/// The slot name under which the voice of `speaker` goes out.
pub(crate) fn find_slot(slots: &Vec<Slot>, speaker: &SteamId) -> (r: Option<String>)
    ensures
        r.deep_view() == slot_of(slots.deep_view(), speaker@),
{
    let ghost view = slots.deep_view();
    let mut j: usize = 0;
    assert(view.skip(0) =~= view);
    while j < slots.len()
        invariant
            j <= slots@.len(),
            view == slots.deep_view(),
            slot_of(view, speaker@) == slot_of(view.skip(j as int), speaker@),
        decreases slots@.len() - j,
    {
        assert(view.skip(j as int)[0] == view[j as int]);
        assert(view.skip(j as int).drop_first() =~= view.skip(j + 1));
        if let Some(who) = &slots[j].speaker {
            if *who == *speaker {
                return Some(slots[j].mid.clone());
            }
        }
        j = j + 1;
    }
    assert(view.skip(j as int).len() == 0);
    None
}

/// Freeing the slots of one who leaves keeps the slots sound.
pub proof fn vacated_is_sound(slots: Seq<SlotView>, id: Seq<char>)
    requires
        slots_wf(slots),
    ensures
        slots_wf(vacated(slots, id)),
{
    let after = vacated(slots, id);
    assert forall|j: int, k: int| 0 <= j < k < after.len() implies (#[trigger] after[j]).mid != (
    #[trigger] after[k]).mid by {
        assert(slots[j].mid != slots[k].mid);
    }
    assert forall|j: int, k: int|
        0 <= j < k < after.len() && (
        #[trigger] after[j]).speaker is Some implies after[j].speaker != (
    #[trigger] after[k]).speaker by {
        assert(slots[j].speaker != slots[k].speaker);
    }
}

/// The slots once a listener hears `speakers`: first the slots of those who
/// are not among the nearest are freed, then the nearest are seated.
pub open spec fn reassigned(slots: Seq<SlotView>, speakers: Seq<Seq<char>>) -> Seq<SlotView> {
    seat_all(released(slots, nearest(speakers)), nearest(speakers))
}

/// While fewer names than slots are wanted, one who is wanted and not seated finds a free slot.
proof fn there_is_room(slots: Seq<SlotView>, wanted: Seq<Seq<char>>, who: Seq<char>)
    requires
        slots_wf(slots),
        only(slots, wanted),
        wanted.len() <= SLOTS,
        wanted.contains(who),
        !seated(slots, who),
    ensures
        first_free(slots) < slots.len(),
{
    first_free_is_free(slots);
    if first_free(slots) >= slots.len() {
        let held = Seq::new(slots.len(), |j: int| slots[j].speaker->0);
        assert forall|j: int, k: int| 0 <= j < held.len() && 0 <= k < held.len() && j != k implies
            held[j] != held[k] by {
            assert(slots[j].speaker is Some && slots[k].speaker is Some);
            if j < k {
                assert(slots[j].speaker != slots[k].speaker);
            } else {
                assert(slots[k].speaker != slots[j].speaker);
            }
        }
        held.unique_seq_to_set();
        let all = wanted.to_set();
        assert(!held.to_set().contains(who)) by {
            if held.contains(who) {
                let j = choose|j: int| 0 <= j < held.len() && held[j] == who;
                assert(slots[j].speaker is Some);
                assert(slots[j].speaker == Some(who));
            }
        }
        assert(held.to_set().insert(who).subset_of(all)) by {
            assert forall|x: Seq<char>| held.to_set().insert(who).contains(x) implies all.contains(
                x,
            ) by {
                if x != who {
                    let j = choose|j: int| 0 <= j < held.len() && held[j] == x;
                    assert(slots[j].speaker is Some);
                }
            }
        }
        vstd::set_lib::lemma_len_subset(held.to_set().insert(who), all);
        wanted.lemma_cardinality_of_set();
    }
}

/// Seating the first `n` of `wanted` seats them all, and no one else.
proof fn seating_succeeds(slots: Seq<SlotView>, wanted: Seq<Seq<char>>, n: int)
    requires
        slots_wf(slots),
        only(slots, wanted),
        wanted.len() <= SLOTS,
        0 <= n <= wanted.len(),
    ensures
        only(seat_all(slots, wanted.take(n)), wanted),
        forall|i: int|
            0 <= i < n ==> seated(seat_all(slots, wanted.take(n)), #[trigger] wanted[i]),
    decreases n,
{
    if n > 0 {
        assert(wanted.take(n).drop_last() =~= wanted.take(n - 1));
        let before = seat_all(slots, wanted.take(n - 1));
        let after = seat_all(slots, wanted.take(n));
        let who = wanted[n - 1];
        assert(wanted.take(n).last() == who);
        seating_succeeds(slots, wanted, n - 1);
        seat_all_is_sound(slots, wanted.take(n - 1));
        seat_is_sound(before, who);
        first_free_is_free(before);
        assert(wanted.contains(who));
        if !seated(before, who) {
            there_is_room(before, wanted, who);
            assert(after[first_free(before)].speaker == Some(who));
        }
        assert forall|i: int| 0 <= i < n implies seated(after, #[trigger] wanted[i]) by {
            if i < n - 1 {
                let j = choose|j: int|
                    0 <= j < before.len() && (#[trigger] before[j]).speaker == Some(wanted[i]);
                assert(after[j].speaker == before[j].speaker);
            }
        }
        assert forall|j: int|
            0 <= j < after.len() && (#[trigger] after[j]).speaker is Some implies wanted.contains(
            after[j].speaker->0,
        ) by {
            if before[j].speaker is Some {
                assert(after[j].speaker == before[j].speaker);
            }
        }
    }
}

proof fn reassigned_is_sound(slots: Seq<SlotView>, speakers: Seq<Seq<char>>)
    requires
        slots_wf(slots),
    ensures
        slots_wf(reassigned(slots, speakers)),
        only(reassigned(slots, speakers), nearest(speakers)),
        forall|i: int|
            0 <= i < nearest(speakers).len() ==> seated(
                reassigned(slots, speakers),
                #[trigger] nearest(speakers)[i],
            ),
        keeps(released(slots, nearest(speakers)), reassigned(slots, speakers)),
{
    let wanted = nearest(speakers);
    released_is_sound(slots, wanted);
    seat_all_is_sound(released(slots, wanted), wanted);
    assert(wanted.take(wanted.len() as int) =~= wanted);
    seating_succeeds(released(slots, wanted), wanted, wanted.len() as int);
}

/// Exactly the nearest speakers have a slot afterwards: whoever is not among
/// them has none, and there is room for each of them.
pub proof fn the_nearest_have_slots(
    slots: Seq<SlotView>,
    speakers: Seq<Seq<char>>,
    who: Seq<char>,
)
    requires
        slots_wf(slots),
    ensures
        seated(reassigned(slots, speakers), who) <==> nearest(speakers).contains(who),
{
    reassigned_is_sound(slots, speakers);
}

/// Nothing is negotiated anew: the slots keep their number, their order and
/// their names.
pub proof fn slots_keep_their_names(slots: Seq<SlotView>, speakers: Seq<Seq<char>>, j: int)
    requires
        slots_wf(slots),
        0 <= j < slots.len(),
    ensures
        reassigned(slots, speakers).len() == slots.len(),
        reassigned(slots, speakers)[j].mid == slots[j].mid,
        slots_wf(reassigned(slots, speakers)),
{
    reassigned_is_sound(slots, speakers);
    assert(released(slots, nearest(speakers))[j].mid == slots[j].mid);
}

/// A speaker who is heard before and after stays in the slot.
pub proof fn who_stays_keeps_the_slot(slots: Seq<SlotView>, speakers: Seq<Seq<char>>, j: int)
    requires
        slots_wf(slots),
        0 <= j < slots.len(),
        slots[j].speaker is Some,
        nearest(speakers).contains(slots[j].speaker->0),
    ensures
        reassigned(slots, speakers)[j] == slots[j],
{
    reassigned_is_sound(slots, speakers);
    assert(released(slots, nearest(speakers))[j] == slots[j]);
}

/// Seating those who are seated changes nothing.
proof fn seating_again(slots: Seq<SlotView>, wanted: Seq<Seq<char>>)
    requires
        forall|i: int| 0 <= i < wanted.len() ==> seated(slots, #[trigger] wanted[i]),
    ensures
        seat_all(slots, wanted) == slots,
    decreases wanted.len(),
{
    if wanted.len() > 0 {
        let init = wanted.drop_last();
        assert forall|i: int| 0 <= i < init.len() implies seated(slots, #[trigger] init[i]) by {
            assert(init[i] == wanted[i]);
        }
        seating_again(slots, init);
        assert(seated(slots, wanted[wanted.len() - 1]));
    }
}

/// No message where nothing changes.
pub proof fn no_change_no_message(slots: Seq<SlotView>)
    ensures
        changes(slots, slots) == Seq::<ServerMsgView>::empty(),
    decreases slots.len(),
{
    if slots.len() > 0 {
        no_change_no_message(slots.drop_last());
    }
}

/// The same speakers a second time change no slot and cause no message.
pub proof fn repetition_is_silent(slots: Seq<SlotView>, speakers: Seq<Seq<char>>)
    requires
        slots_wf(slots),
    ensures
        reassigned(reassigned(slots, speakers), speakers) == reassigned(slots, speakers),
        changes(
            reassigned(slots, speakers),
            reassigned(reassigned(slots, speakers), speakers),
        ) == Seq::<ServerMsgView>::empty(),
{
    let once = reassigned(slots, speakers);
    reassigned_is_sound(slots, speakers);
    assert(released(once, nearest(speakers)) =~= once);
    seating_again(once, nearest(speakers));
    no_change_no_message(once);
}

/// A browser's picture of its slots after one message.
pub open spec fn told(slots: Seq<SlotView>, msg: ServerMsgView) -> Seq<SlotView> {
    match msg {
        ServerMsgView::Peer { mid, id } => Seq::new(
            slots.len(),
            |j: int|
                if slots[j].mid == mid {
                    handed(slots[j], id)
                } else {
                    slots[j]
                },
        ),
        _ => slots,
    }
}

/// A browser's picture of its slots after several messages.
pub open spec fn told_all(slots: Seq<SlotView>, msgs: Seq<ServerMsgView>) -> Seq<SlotView>
    decreases msgs.len(),
{
    if msgs.len() == 0 {
        slots
    } else {
        told(told_all(slots, msgs.drop_last()), msgs.last())
    }
}

proof fn browser_follows_up_to(before: Seq<SlotView>, after: Seq<SlotView>, n: int)
    requires
        slots_wf(before),
        after.len() == before.len(),
        forall|j: int| 0 <= j < before.len() ==> (#[trigger] after[j]).mid == before[j].mid,
        0 <= n <= after.len(),
    ensures
        told_all(before, changes(before.take(n), after.take(n))) == after.take(n) + before.skip(n),
    decreases n,
{
    if n == 0 {
        assert(after.take(0) + before.skip(0) =~= before);
    } else {
        let k = n - 1;
        browser_follows_up_to(before, after, k);
        assert(before.take(n).drop_last() =~= before.take(k));
        assert(after.take(n).drop_last() =~= after.take(k));
        assert(before.take(n).last() == before[k]);
        assert(after.take(n).last() == after[k]);
        let msgs = changes(before.take(k), after.take(k));
        let picture = after.take(k) + before.skip(k);
        let goal = after.take(n) + before.skip(n);
        assert(after[k].mid == before[k].mid);
        if before[k].speaker == after[k].speaker {
            assert(before[k] == after[k]);
            assert(picture =~= goal);
        } else {
            let msg = ServerMsgView::Peer { mid: after[k].mid, id: after[k].speaker };
            assert(changes(before.take(n), after.take(n)) == msgs.push(msg));
            assert(msgs.push(msg).drop_last() =~= msgs);
            let next = told(picture, msg);
            assert forall|j: int| 0 <= j < next.len() implies next[j] == goal[j] by {
                assert(picture[j].mid == before[j].mid) by {
                    if j < k {
                        assert(after[j].mid == before[j].mid);
                    }
                }
                if j < k {
                    assert(before[j].mid != before[k].mid);
                } else if j > k {
                    assert(before[k].mid != before[j].mid);
                }
            }
            assert(next =~= goal);
        }
    }
}

/// A browser that follows the messages has the right picture of its slots.
pub proof fn browser_follows(slots: Seq<SlotView>, speakers: Seq<Seq<char>>)
    requires
        slots_wf(slots),
    ensures
        told_all(slots, changes(slots, reassigned(slots, speakers))) == reassigned(
            slots,
            speakers,
        ),
{
    let after = reassigned(slots, speakers);
    reassigned_is_sound(slots, speakers);
    assert forall|j: int| 0 <= j < slots.len() implies (#[trigger] after[j]).mid
        == slots[j].mid by {
        slots_keep_their_names(slots, speakers, j);
    }
    browser_follows_up_to(slots, after, slots.len() as int);
    assert(slots.take(slots.len() as int) =~= slots);
    assert(after.take(slots.len() as int) =~= after);
    assert(after.take(slots.len() as int) + slots.skip(slots.len() as int) =~= after);
}

/// A browser that follows the messages has the right picture of its slots
/// when another session goes, too.
pub proof fn browser_follows_departure(slots: Seq<SlotView>, id: Seq<char>)
    requires
        slots_wf(slots),
    ensures
        told_all(slots, changes(slots, vacated(slots, id))) == vacated(slots, id),
        !seated(vacated(slots, id), id),
{
    let after = vacated(slots, id);
    browser_follows_up_to(slots, after, slots.len() as int);
    assert(slots.take(slots.len() as int) =~= slots);
    assert(after.take(slots.len() as int) =~= after);
    assert(after.take(slots.len() as int) + slots.skip(slots.len() as int) =~= after);
}

/// A voice goes out in a slot exactly if its speaker has one.
pub proof fn slot_of_the_seated(slots: Seq<SlotView>, who: Seq<char>)
    ensures
        slot_of(slots, who) is Some <==> seated(slots, who),
        slot_of(slots, who) matches Some(mid) ==> exists|j: int|
            0 <= j < slots.len() && (#[trigger] slots[j]).speaker == Some(who) && slots[j].mid
                == mid,
    decreases slots.len(),
{
    if slots.len() > 0 && slots[0].speaker != Some(who) {
        let rest = slots.drop_first();
        slot_of_the_seated(rest, who);
        if seated(slots, who) {
            let j = choose|j: int|
                0 <= j < slots.len() && (#[trigger] slots[j]).speaker == Some(who);
            assert(rest[j - 1] == slots[j]);
        }
        if let Some(mid) = slot_of(rest, who) {
            let j = choose|j: int|
                0 <= j < rest.len() && (#[trigger] rest[j]).speaker == Some(who) && rest[j].mid
                    == mid;
            assert(slots[j + 1] == rest[j]);
        }
    }
}

} // verus!
