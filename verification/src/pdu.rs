//! Events as the state engine sees them.

use crate::bytes::str_eq;
use vstd::prelude::*;

verus! {

/// An event of a room. It is a state event where it has a state key.
pub struct PduEvent {
    pub event_id: String,
    pub room_id: String,
    pub sender: String,
    pub kind: String,
    /// The content, as JSON text.
    pub content: String,
    pub state_key: Option<String>,
}

/// An event as plain values.
pub struct PduView {
    pub event_id: Seq<char>,
    pub room_id: Seq<char>,
    pub sender: Seq<char>,
    pub kind: Seq<char>,
    pub content: Seq<char>,
    pub state_key: Option<Seq<char>>,
}

/// The view of an optional string.
pub open spec fn option_view(s: Option<String>) -> Option<Seq<char>> {
    match s {
        Some(s) => Some(s@),
        None => None,
    }
}

impl View for PduEvent {
    type V = PduView;

    open spec fn view(&self) -> PduView {
        PduView {
            event_id: self.event_id@,
            room_id: self.room_id@,
            sender: self.sender@,
            kind: self.kind@,
            content: self.content@,
            state_key: option_view(self.state_key),
        }
    }
}

/// What an invited user is shown of a state event.
pub struct StrippedStateEvent {
    pub content: String,
    pub kind: String,
    pub sender: String,
    pub state_key: Option<String>,
}

/// A stripped state event as plain values.
pub struct StrippedView {
    pub content: Seq<char>,
    pub kind: Seq<char>,
    pub sender: Seq<char>,
    pub state_key: Option<Seq<char>>,
}

impl View for StrippedStateEvent {
    type V = StrippedView;

    open spec fn view(&self) -> StrippedView {
        StrippedView {
            content: self.content@,
            kind: self.kind@,
            sender: self.sender@,
            state_key: option_view(self.state_key),
        }
    }
}

/// The stripped form of an event: its content, type, sender and state key.
pub open spec fn spec_stripped(pdu: PduView) -> StrippedView {
    StrippedView { content: pdu.content, kind: pdu.kind, sender: pdu.sender, state_key: pdu.state_key }
}

/// A copy of an optional string.
pub fn clone_option(s: &Option<String>) -> (r: Option<String>)
    ensures
        option_view(r) == option_view(*s),
{
    match s {
        Some(s) => Some(s.clone()),
        None => None,
    }
}

impl Clone for PduEvent {
    /// An event with the same fields.
    fn clone(&self) -> (r: PduEvent)
        ensures
            r@ == self@,
    {
        PduEvent {
            event_id: self.event_id.clone(),
            room_id: self.room_id.clone(),
            sender: self.sender.clone(),
            kind: self.kind.clone(),
            content: self.content.clone(),
            state_key: clone_option(&self.state_key),
        }
    }
}

impl PduEvent {
    /// The stripped form of the event.
    pub fn to_stripped_state_event(&self) -> (r: StrippedStateEvent)
        ensures
            r@ == spec_stripped(self@),
    {
        StrippedStateEvent {
            content: self.content.clone(),
            kind: self.kind.clone(),
            sender: self.sender.clone(),
            state_key: clone_option(&self.state_key),
        }
    }
}

/// How a user stands to a room.
#[derive(Debug, Clone, Copy, PartialEq, Eq, Structural)]
pub enum MembershipState {
    Join,
    Leave,
    Invite,
    Ban,
    Knock,
}

/// The membership that a word names.
pub open spec fn spec_membership(word: Seq<char>) -> Option<MembershipState> {
    if word == "join"@ {
        Some(MembershipState::Join)
    } else if word == "leave"@ {
        Some(MembershipState::Leave)
    } else if word == "invite"@ {
        Some(MembershipState::Invite)
    } else if word == "ban"@ {
        Some(MembershipState::Ban)
    } else if word == "knock"@ {
        Some(MembershipState::Knock)
    } else {
        None
    }
}

/// The membership that `word` names: one of `join`, `leave`, `invite`, `ban`, `knock`.
pub fn parse_membership(word: &str) -> (r: Option<MembershipState>)
    ensures
        r == spec_membership(word@),
{
    if str_eq(word, "join") {
        Some(MembershipState::Join)
    } else if str_eq(word, "leave") {
        Some(MembershipState::Leave)
    } else if str_eq(word, "invite") {
        Some(MembershipState::Invite)
    } else if str_eq(word, "ban") {
        Some(MembershipState::Ban)
    } else if str_eq(word, "knock") {
        Some(MembershipState::Knock)
    } else {
        None
    }
}

/// One notice to the membership cache: the user's new membership in the
/// room and who set it. No reason is given with it, and the user is not
/// notified.
pub struct MembershipUpdate {
    pub room_id: String,
    pub user_id: String,
    pub membership: MembershipState,
    pub sender: String,
}

/// A notice to the membership cache as plain values.
pub struct UpdateView {
    pub room_id: Seq<char>,
    pub user_id: Seq<char>,
    pub membership: MembershipState,
    pub sender: Seq<char>,
}

impl View for MembershipUpdate {
    type V = UpdateView;

    open spec fn view(&self) -> UpdateView {
        UpdateView {
            room_id: self.room_id@,
            user_id: self.user_id@,
            membership: self.membership,
            sender: self.sender@,
        }
    }
}

/// The events that the server has stored, in the order in which they came.
pub struct Timeline {
    pdus: Vec<PduEvent>,
}

/// The events of `pdus`, each taken by its view.
pub open spec fn pdus_of(pdus: Seq<PduEvent>) -> Seq<PduView> {
    Seq::new(pdus.len(), |i: int| pdus[i]@)
}

/// The first event of `timeline` that has the id `event_id`.
pub open spec fn spec_get_pdu(timeline: Seq<PduView>, event_id: Seq<char>) -> Option<PduView>
    decreases timeline.len(),
{
    if timeline.len() == 0 {
        None
    } else if timeline[0].event_id == event_id {
        Some(timeline[0])
    } else {
        spec_get_pdu(timeline.skip(1), event_id)
    }
}

/// An event that is stored later does not change what an id finds, unless the id found nothing.
pub proof fn lemma_get_pdu_push(timeline: Seq<PduView>, pdu: PduView, event_id: Seq<char>)
    ensures
        spec_get_pdu(timeline.push(pdu), event_id) == match spec_get_pdu(timeline, event_id) {
            Some(found) => Some(found),
            None => if pdu.event_id == event_id {
                Some(pdu)
            } else {
                None
            },
        },
    decreases timeline.len(),
{
    if timeline.len() == 0 {
        assert(timeline.push(pdu).skip(1) =~= timeline);
    } else {
        assert(timeline.push(pdu).skip(1) =~= timeline.skip(1).push(pdu));
        lemma_get_pdu_push(timeline.skip(1), pdu, event_id);
    }
}

impl View for Timeline {
    type V = Seq<PduView>;

    closed spec fn view(&self) -> Seq<PduView> {
        pdus_of(self.pdus@)
    }
}

impl Timeline {
    /// A timeline without events.
    pub fn new() -> (t: Timeline)
        ensures
            t@ == Seq::<PduView>::empty(),
    {
        let t = Timeline { pdus: Vec::new() };
        assert(t@ =~= Seq::<PduView>::empty());
        t
    }

    /// Stores an event after those that are stored.
    pub fn append_pdu(&mut self, pdu: PduEvent)
        ensures
            final(self)@ == old(self)@.push(pdu@),
    {
        self.pdus.push(pdu);
        assert(self@ =~= old(self)@.push(pdu@));
    }

    /// The event with the id `event_id`: the first one stored under it.
    pub fn get_pdu(&self, event_id: &str) -> (r: Option<&PduEvent>)
        ensures
            match r {
                Some(pdu) => spec_get_pdu(self@, event_id@) == Some(pdu@),
                None => spec_get_pdu(self@, event_id@).is_none(),
            },
    {
        let mut i: usize = 0;
        assert(self@.skip(0) =~= self@);
        while i < self.pdus.len()
            invariant
                i <= self.pdus@.len(),
                spec_get_pdu(self@, event_id@) == spec_get_pdu(self@.skip(i as int), event_id@),
            decreases self.pdus@.len() - i,
        {
            if str_eq(self.pdus[i].event_id.as_str(), event_id) {
                assert(self@.skip(i as int)[0] == self.pdus@[i as int]@);
                return Some(&self.pdus[i]);
            }
            assert(self@.skip(i as int).skip(1) =~= self@.skip(i + 1));
            assert(self@.skip(i as int)[0] == self.pdus@[i as int]@);
            i += 1;
        }
        None
    }
}

} // verus!
