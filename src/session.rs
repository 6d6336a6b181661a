//! The per-connection control loop's decisions, as a state machine:
//! `Connecting -> Joined -> Closed`. The transport waits for frames and
//! performs the deliveries; everything it decides is here.
use vstd::prelude::*;
use crate::room::{joined, left, member_ids, recipients, well_formed, Room, RoomView};
use crate::naming::participant_name;

verus! {

/// Where a connection stands.
pub enum Session {
    /// Upgraded, not yet registered in a room.
    Connecting,
    /// A member of its room under this participant id.
    Joined { participant_id: String },
    /// Terminated; never left again.
    Closed,
}

/// An inbound frame, as far as the session cares.
pub enum Inbound {
    /// A text payload.
    Text(String),
    /// An explicit close signal from the peer.
    Close,
    /// Any other frame (binary, ping, pong): ignored.
    Other,
}

/// What the transport does after a step.
pub enum Outcome {
    /// Send `payload` to each endpoint of `to`; a failed send is reported
    /// and does not stop the others.
    Deliver { payload: String, to: Vec<u64> },
    /// Nothing to do; keep reading.
    Ignored,
    /// Stop reading and release the endpoint.
    Ended,
}

impl Session {
    /// A freshly upgraded connection.
    pub fn new() -> (s: Session)
        ensures
            s is Connecting,
    {
        Session::Connecting
    }

    /// Registers the connection `conn` in the room it asked for. Where that
    /// room does not exist the session is closed at once, and no participant
    /// is created.
    pub fn connect(room: Option<&mut Room>, conn: u64) -> (s: Session)
        requires
            room matches Some(r) ==> {
                &&& well_formed(r@)
                &&& r@.joins < u64::MAX
                &&& !recipients(r@.members).contains(conn)
            },
        ensures
            room is None ==> s is Closed,
            room matches Some(r) ==> {
                &&& s matches Session::Joined { participant_id } && participant_id@
                    == participant_name(r@.joins + 1) && !member_ids(r@.members).contains(
                    participant_id@,
                )
                &&& final(r)@ == joined(r@, conn)
                &&& well_formed(final(r)@)
            },
    {
        match room {
            Some(r) => {
                let participant_id = r.join(conn);
                Session::Joined { participant_id }
            },
            None => Session::Closed,
        }
    }

    /// Handles one inbound frame of a joined session on its room. A text
    /// payload becomes the room's content and is delivered to every member;
    /// an explicit close removes the participant and ends the session; other
    /// frames change nothing. A session that is not joined only ends.
    pub fn on_frame(&mut self, room: &mut Room, frame: Inbound) -> (out: Outcome)
        requires
            well_formed(old(room)@),
        ensures
            well_formed(final(room)@),
            !(*old(self) is Joined) ==> {
                &&& out is Ended
                &&& *final(self) == *old(self)
                &&& final(room)@ == old(room)@
            },
            *old(self) matches Session::Joined { participant_id } ==> match frame {
                Inbound::Text(payload) => {
                    &&& out matches Outcome::Deliver { payload: p, to } && p@ == payload@
                        && to@ == recipients(old(room)@.members)
                    &&& final(room)@ == (RoomView { content: payload@, ..old(room)@ })
                    &&& *final(self) == *old(self)
                },
                Inbound::Close => {
                    &&& out is Ended
                    &&& final(room)@ == (RoomView {
                        members: left(old(room)@.members, participant_id@),
                        ..old(room)@
                    })
                    &&& *final(self) is Closed
                },
                Inbound::Other => {
                    &&& out is Ignored
                    &&& final(room)@ == old(room)@
                    &&& *final(self) == *old(self)
                },
            },
    {
        match self {
            Session::Joined { participant_id } => match frame {
                Inbound::Text(payload) => {
                    let p = payload.clone();
                    let to = room.apply_and_broadcast(payload);
                    Outcome::Deliver { payload: p, to }
                },
                Inbound::Close => {
                    room.leave(participant_id);
                    *self = Session::Closed;
                    Outcome::Ended
                },
                Inbound::Other => Outcome::Ignored,
            },
            _ => Outcome::Ended,
        }
    }

    /// Whether the session has terminated.
    pub fn is_closed(&self) -> (r: bool)
        ensures
            r == (self is Closed),
    {
        match self {
            Session::Closed => true,
            _ => false,
        }
    }
}

} // verus!
