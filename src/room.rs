//! A room: its identifier, its document and its ordered membership.
use vstd::prelude::*;
use crate::document::Document;
use crate::naming::{format_participant_name, participant_name};

verus! {

/// What a member of a room is, abstractly: its participant id and the key
/// of the connection endpoint that deliveries to it go to.
pub type MemberView = (Seq<char>, u64);

/// One joined connection.
pub struct Participant {
    id: String,
    conn: u64,
}

impl View for Participant {
    type V = MemberView;

    closed spec fn view(&self) -> MemberView {
        (self.id@, self.conn)
    }
}

impl Participant {
    /// The participant's identifier within its room.
    pub fn id(&self) -> (r: String)
        ensures
            r@ == self@.0,
    {
        self.id.clone()
    }

    /// The key of the connection endpoint this participant is reached through.
    pub fn conn(&self) -> (r: u64)
        ensures
            r == self@.1,
    {
        self.conn
    }
}

/// The abstract state of a room. `joins` counts the joins so far; the
/// `n`-th join is given the id `participant_<n>`.
pub ghost struct RoomView {
    pub id: Seq<char>,
    pub content: Seq<char>,
    pub members: Seq<MemberView>,
    pub joins: nat,
}

/// The room after a connection joins: a new member at the end with the
/// next id that the join count gives.
pub open spec fn joined(room: RoomView, conn: u64) -> RoomView {
    RoomView {
        members: room.members.push((participant_name(room.joins + 1), conn)),
        joins: room.joins + 1,
        ..room
    }
}

/// The membership after a leave: every member with that id is gone and the
/// others keep their order.
pub open spec fn left(members: Seq<MemberView>, pid: Seq<char>) -> Seq<MemberView> {
    members.filter(|m: MemberView| m.0 != pid)
}

/// The connection keys that a broadcast goes to, one per member, in
/// membership order.
pub open spec fn recipients(members: Seq<MemberView>) -> Seq<u64> {
    members.map_values(|m: MemberView| m.1)
}

/// The participant ids of a membership, in order.
pub open spec fn member_ids(members: Seq<MemberView>) -> Seq<Seq<char>> {
    members.map_values(|m: MemberView| m.0)
}

/// Leaving with an id that no member has changes nothing.
pub proof fn lemma_leave_absent(members: Seq<MemberView>, pid: Seq<char>)
    requires
        forall|i: int| 0 <= i < members.len() ==> #[trigger] members[i].0 != pid,
    ensures
        left(members, pid) == members,
    decreases members.len(),
{
    reveal(Seq::filter);
    if members.len() > 0 {
        let init = members.drop_last();
        assert forall|i: int| 0 <= i < init.len() implies #[trigger] init[i].0 != pid by {
            assert(init[i] == members[i]);
        }
        lemma_leave_absent(init, pid);
        assert(init.push(members.last()) == members);
    }
}

/// Leaving twice is the same as leaving once, so a repeated close signal
/// from the same participant changes nothing.
pub proof fn lemma_leave_idempotent(members: Seq<MemberView>, pid: Seq<char>)
    ensures
        left(left(members, pid), pid) == left(members, pid),
{
    broadcast use Seq::lemma_filter_pred;
    let rest = left(members, pid);
    let pred = |m: MemberView| m.0 != pid;
    assert forall|i: int| 0 <= i < rest.len() implies #[trigger] rest[i].0 != pid by {
        assert(pred(rest[i]));
    }
    lemma_leave_absent(rest, pid);
}

/// The room after the connections `conns` join one after another.
pub open spec fn joined_all(room: RoomView, conns: Seq<u64>) -> RoomView
    decreases conns.len(),
{
    if conns.len() == 0 {
        room
    } else {
        joined(joined_all(room, conns.drop_last()), conns.last())
    }
}

/// The room after a text payload is applied: the payload is the content,
/// everything else is kept.
pub open spec fn updated(room: RoomView, payload: Seq<char>) -> RoomView {
    RoomView { content: payload, ..room }
}

/// The room after the payloads `payloads` are applied in this order.
pub open spec fn updated_all(room: RoomView, payloads: Seq<Seq<char>>) -> RoomView
    decreases payloads.len(),
{
    if payloads.len() == 0 {
        room
    } else {
        updated(updated_all(room, payloads.drop_last()), payloads.last())
    }
}

/// Whether no two members share a participant id.
pub open spec fn ids_unique(members: Seq<MemberView>) -> bool {
    forall|i: int, j: int|
        0 <= i < members.len() && 0 <= j < members.len() && i != j ==> #[trigger] members[i].0
            != #[trigger] members[j].0
}

/// Whether no two members share a connection endpoint.
pub open spec fn conns_unique(members: Seq<MemberView>) -> bool {
    forall|i: int, j: int|
        0 <= i < members.len() && 0 <= j < members.len() && i != j ==> #[trigger] members[i].1
            != #[trigger] members[j].1
}

/// Whether `id` is one of the ids that the first `joins` joins handed out.
pub open spec fn issued(id: Seq<char>, joins: nat) -> bool {
    exists|k: nat| 1 <= k <= joins && #[trigger] participant_name(k) == id
}

/// The invariant of every room: participant ids and endpoints are unique
/// among the members, and each member's id was handed out by an earlier
/// join.
pub open spec fn well_formed(room: RoomView) -> bool {
    &&& ids_unique(room.members)
    &&& conns_unique(room.members)
    &&& forall|i: int| 0 <= i < room.members.len() ==> issued(#[trigger] room.members[i].0, room.joins)
}

/// A join into a well-formed room, through an endpoint that is not a member
/// yet, gives an id that no member has and keeps the room well-formed.
pub proof fn lemma_join_well_formed(room: RoomView, conn: u64)
    requires
        well_formed(room),
        !recipients(room.members).contains(conn),
    ensures
        !member_ids(room.members).contains(participant_name(room.joins + 1)),
        well_formed(joined(room, conn)),
{
    let fresh = participant_name(room.joins + 1);
    let ms = room.members;
    let after = joined(room, conn);
    let n = ms.len() as int;
    assert forall|i: int| 0 <= i < n implies (#[trigger] ms[i]).0 != fresh && ms[i].1 != conn by {
        let k = choose|k: nat| 1 <= k <= room.joins && #[trigger] participant_name(k) == ms[i].0;
        if ms[i].0 == fresh {
            crate::naming::lemma_participant_name_injective(k, room.joins + 1);
        }
        assert(recipients(ms)[i] == ms[i].1);
    }
    assert forall|i: int| 0 <= i < after.members.len() implies issued(
        #[trigger] after.members[i].0,
        after.joins,
    ) by {
        if i < n {
            assert(after.members[i] == ms[i]);
            let k = choose|k: nat| 1 <= k <= room.joins && #[trigger] participant_name(k) == ms[i].0;
            assert(1 <= k <= after.joins && participant_name(k) == after.members[i].0);
        } else {
            assert(participant_name(after.joins) == after.members[i].0);
        }
    }
    assert forall|i: int, j: int|
        0 <= i < after.members.len() && 0 <= j < after.members.len() && i != j implies #[trigger] after.members[i].0
        != #[trigger] after.members[j].0 by {
        if i < n && j < n {
            assert(after.members[i] == ms[i] && after.members[j] == ms[j]);
        } else if i < n {
            assert(after.members[i] == ms[i]);
        } else {
            assert(after.members[j] == ms[j]);
        }
    }
    assert forall|i: int, j: int|
        0 <= i < after.members.len() && 0 <= j < after.members.len() && i != j implies #[trigger] after.members[i].1
        != #[trigger] after.members[j].1 by {
        if i < n && j < n {
            assert(after.members[i] == ms[i] && after.members[j] == ms[j]);
        } else if i < n {
            assert(after.members[i] == ms[i]);
        } else {
            assert(after.members[j] == ms[j]);
        }
    }
    if member_ids(ms).contains(fresh) {
        let i = choose|i: int| 0 <= i < member_ids(ms).len() && member_ids(ms)[i] == fresh;
        assert(member_ids(ms)[i] == ms[i].0);
        assert(ms[i].0 != fresh);
    }
}

/// A leave keeps a room well-formed.
pub proof fn lemma_leave_well_formed(room: RoomView, pid: Seq<char>)
    requires
        well_formed(room),
    ensures
        well_formed(RoomView { members: left(room.members, pid), ..room }),
{
    lemma_left_unique(room.members, pid, room.joins);
}

proof fn lemma_left_unique(members: Seq<MemberView>, pid: Seq<char>, joins: nat)
    requires
        well_formed(RoomView { id: Seq::empty(), content: Seq::empty(), members, joins }),
    ensures
        well_formed(
            RoomView { id: Seq::empty(), content: Seq::empty(), members: left(members, pid), joins },
        ),
    decreases members.len(),
{
    reveal(Seq::filter);
    if members.len() > 0 {
        let init = members.drop_last();
        let last = members.last();
        let n = init.len() as int;
        assert forall|i: int| 0 <= i < n implies #[trigger] init[i] == members[i] by {}
        assert forall|i: int| 0 <= i < n implies #[trigger] init[i].0 != last.0 && init[i].1
            != last.1 by {
            assert(members[i] != members[n]);
            assert(members[i].0 != members[n].0);
        }
        lemma_left_unique(init, pid, joins);
        lemma_left_from(init, pid);
        let before = left(init, pid);
        let rest = left(members, pid);
        if last.0 != pid {
            assert(rest == before.push(last));
            assert forall|j: int| 0 <= j < before.len() implies #[trigger] before[j].0 != last.0
                && before[j].1 != last.1 by {
                let k = choose|k: int| 0 <= k < init.len() && init[k] == #[trigger] before[j];
                assert(init[k].0 != last.0);
            }
            assert forall|i: int, j: int|
                0 <= i < rest.len() && 0 <= j < rest.len() && i != j implies #[trigger] rest[i].0
                != #[trigger] rest[j].0 by {
                if i < before.len() && j < before.len() {
                    assert(rest[i] == before[i] && rest[j] == before[j]);
                } else if i < before.len() {
                    assert(rest[i] == before[i]);
                } else {
                    assert(rest[j] == before[j]);
                }
            }
            assert forall|i: int, j: int|
                0 <= i < rest.len() && 0 <= j < rest.len() && i != j implies #[trigger] rest[i].1
                != #[trigger] rest[j].1 by {
                if i < before.len() && j < before.len() {
                    assert(rest[i] == before[i] && rest[j] == before[j]);
                } else if i < before.len() {
                    assert(rest[i] == before[i]);
                } else {
                    assert(rest[j] == before[j]);
                }
            }
            assert forall|i: int| 0 <= i < rest.len() implies issued(#[trigger] rest[i].0, joins) by {
                if i < before.len() {
                    assert(rest[i] == before[i]);
                } else {
                    assert(members[n] == last);
                }
            }
        } else {
            assert(rest == before);
        }
    }
}

/// Any sequence of joins into a well-formed room, each through an endpoint
/// of its own that is not a member yet, hands out participant ids that are
/// pairwise distinct and distinct from those of the members already there.
pub proof fn lemma_join_ids_unique(room: RoomView, conns: Seq<u64>)
    requires
        well_formed(room),
        conns.no_duplicates(),
        forall|i: int| 0 <= i < conns.len() ==> !recipients(room.members).contains(#[trigger] conns[i]),
    ensures
        ids_unique(joined_all(room, conns).members),
        well_formed(joined_all(room, conns)),
        recipients(joined_all(room, conns).members) == recipients(room.members) + conns,
    decreases conns.len(),
{
    if conns.len() > 0 {
        let init = conns.drop_last();
        assert forall|i: int| 0 <= i < init.len() implies !recipients(room.members).contains(
            #[trigger] init[i],
        ) by {
            assert(init[i] == conns[i]);
        }
        lemma_join_ids_unique(room, init);
        let before = joined_all(room, init);
        let c = conns.last();
        if recipients(before.members).contains(c) {
            let j = choose|j: int| 0 <= j < recipients(before.members).len() && recipients(before.members)[j] == c;
            let rs = recipients(room.members);
            if j < rs.len() {
                assert(rs[j] == c);
                assert(conns[conns.len() - 1] == c);
            } else {
                assert(init[j - rs.len()] == c);
                assert(conns[j - rs.len()] == conns[conns.len() - 1]);
            }
        }
        lemma_join_well_formed(before, c);
        let after = joined(before, c);
        assert(recipients(after.members) == recipients(before.members).push(c));
        assert(recipients(room.members) + conns == (recipients(room.members) + init).push(c));
    }
}

/// Updates to one room apply in the order they are serialized: after any
/// sequence of them the content is the last payload, and every one of them
/// is delivered to the same members, so each member receives them in that
/// same order.
pub proof fn lemma_last_writer_wins(room: RoomView, payloads: Seq<Seq<char>>)
    requires
        payloads.len() > 0,
    ensures
        updated_all(room, payloads).content == payloads.last(),
        forall|k: int|
            0 <= k <= payloads.len() ==> #[trigger] updated_all(room, payloads.take(k)).members
                == room.members,
    decreases payloads.len(),
{
    assert forall|k: int| 0 <= k <= payloads.len() implies #[trigger] updated_all(
        room,
        payloads.take(k),
    ).members == room.members by {
        lemma_updates_keep_members(room, payloads.take(k));
    }
}

proof fn lemma_updates_keep_members(room: RoomView, payloads: Seq<Seq<char>>)
    ensures
        updated_all(room, payloads).members == room.members,
        updated_all(room, payloads).id == room.id,
    decreases payloads.len(),
{
    if payloads.len() > 0 {
        lemma_updates_keep_members(room, payloads.drop_last());
    }
}

/// After a participant of a room leaves, no member has its id and its
/// endpoint is among no later broadcast's recipients: each remaining member
/// was there before, and endpoints are unique in every room.
pub proof fn lemma_left_gets_nothing(room: RoomView, pid: Seq<char>, i: int)
    requires
        well_formed(room),
        0 <= i < room.members.len(),
        room.members[i].0 == pid,
    ensures
        forall|j: int| 0 <= j < left(room.members, pid).len() ==> #[trigger] left(room.members, pid)[j].0
            != pid,
        !recipients(left(room.members, pid)).contains(room.members[i].1),
{
    let members = room.members;
    let rest = left(members, pid);
    let pred = |m: MemberView| m.0 != pid;
    broadcast use Seq::lemma_filter_pred;
    assert forall|j: int| 0 <= j < rest.len() implies #[trigger] rest[j].0 != pid by {
        assert(pred(rest[j]));
    }
    lemma_left_from(members, pid);
    if recipients(rest).contains(members[i].1) {
        let j = choose|j: int| 0 <= j < recipients(rest).len() && recipients(rest)[j]
            == members[i].1;
        let k = choose|k: int| 0 <= k < members.len() && members[k] == rest[j];
        assert(members[k].1 == members[i].1);
        assert(rest[j].0 != pid);
    }
}

/// Every member that remains after a leave was a member before.
proof fn lemma_left_from(members: Seq<MemberView>, pid: Seq<char>)
    ensures
        forall|j: int|
            0 <= j < left(members, pid).len() ==> exists|k: int|
                0 <= k < members.len() && members[k] == #[trigger] left(members, pid)[j],
    decreases members.len(),
{
    reveal(Seq::filter);
    if members.len() > 0 {
        lemma_left_from(members.drop_last(), pid);
        let before = left(members.drop_last(), pid);
        let rest = left(members, pid);
        assert forall|j: int| 0 <= j < rest.len() implies exists|k: int|
            0 <= k < members.len() && members[k] == #[trigger] rest[j] by {
            if j < before.len() {
                assert(rest[j] == before[j]);
                let k = choose|k: int|
                    0 <= k < members.drop_last().len() && members.drop_last()[k] == before[j];
                assert(members[k] == rest[j]);
            } else {
                assert(rest[j] == members.last());
                assert(members[members.len() - 1] == rest[j]);
            }
        }
    }
}

/// An isolated broadcast domain.
pub struct Room {
    id: String,
    document: Document,
    participants: Vec<Participant>,
    joins: u64,
}

impl View for Room {
    type V = RoomView;

    closed spec fn view(&self) -> RoomView {
        RoomView {
            id: self.id@,
            content: self.document@,
            members: self.participants@.map_values(|p: Participant| p@),
            joins: self.joins as nat,
        }
    }
}

impl Room {
    /// A room with the given id, an empty document and no members.
    pub fn new(id: String) -> (r: Room)
        ensures
            r@.id == id@,
            r@.content == Seq::<char>::empty(),
            r@.members == Seq::<MemberView>::empty(),
            r@.joins == 0,
            well_formed(r@),
    {
        Room { id, document: Document::new(), participants: Vec::new(), joins: 0 }
    }

    /// The room's identifier.
    pub fn id(&self) -> (r: String)
        ensures
            r@ == self@.id,
    {
        self.id.clone()
    }

    /// The document's current content.
    pub fn content(&self) -> (r: String)
        ensures
            r@ == self@.content,
    {
        self.document.get_content()
    }

    /// The number of current members.
    pub fn participant_count(&self) -> (r: usize)
        ensures
            r == self@.members.len(),
    {
        self.participants.len()
    }

    /// The number of joins so far, leaves not subtracted.
    pub fn join_count(&self) -> (r: u64)
        ensures
            r == self@.joins,
    {
        self.joins
    }

    /// Whether some member is reached through the endpoint `conn`.
    pub fn has_connection(&self, conn: u64) -> (r: bool)
        ensures
            r == recipients(self@.members).contains(conn),
    {
        let mut i: usize = 0;
        while i < self.participants.len()
            invariant
                i <= self.participants.len(),
                self@.members.len() == self.participants.len(),
                forall|j: int| 0 <= j < i ==> #[trigger] recipients(self@.members)[j] != conn,
            decreases self.participants.len() - i,
        {
            if self.participants[i].conn == conn {
                assert(recipients(self@.members)[i as int] == conn);
                return true;
            }
            i = i + 1;
        }
        false
    }

    /// The ids of the current members, in membership order.
    pub fn participant_ids(&self) -> (r: Vec<String>)
        ensures
            r@.map_values(|s: String| s@) == member_ids(self@.members),
    {
        let mut r: Vec<String> = Vec::new();
        let mut i: usize = 0;
        while i < self.participants.len()
            invariant
                i <= self.participants.len(),
                self@.members.len() == self.participants.len(),
                r@.map_values(|s: String| s@) == member_ids(self@.members).take(i as int),
            decreases self.participants.len() - i,
        {
            r.push(self.participants[i].id());
            proof {
                assert(member_ids(self@.members).take(i + 1) == member_ids(self@.members).take(
                    i as int,
                ).push(self@.members[i as int].0));
                assert(r@.map_values(|s: String| s@) == member_ids(self@.members).take(i + 1));
            }
            i = i + 1;
        }
        proof {
            assert(member_ids(self@.members).take(i as int) == member_ids(self@.members));
        }
        r
    }

    /// Appends a new member reached through `conn`, an endpoint that is not
    /// a member yet, and returns its id,
    /// `participant_<n>` where `n` counts this join among all joins so far;
    /// no current member has that id.
    pub fn join(&mut self, conn: u64) -> (pid: String)
        requires
            well_formed(old(self)@),
            old(self)@.joins < u64::MAX,
            !recipients(old(self)@.members).contains(conn),
        ensures
            pid@ == participant_name(old(self)@.joins + 1),
            !member_ids(old(self)@.members).contains(pid@),
            final(self)@ == joined(old(self)@, conn),
            well_formed(final(self)@),
    {
        proof {
            lemma_join_well_formed(self@, conn);
        }
        let n: u64 = self.joins + 1;
        self.joins = n;
        let pid = format_participant_name(n);
        self.participants.push(Participant { id: pid.clone(), conn });
        proof {
            assert(self.participants@.map_values(|p: Participant| p@) == joined(
                old(self)@,
                conn,
            ).members);
        }
        pid
    }

    /// Removes every member whose id is `pid`; the others keep their order.
    /// Leaving twice, or with an id that is not a member, changes nothing.
    pub fn leave(&mut self, pid: &String)
        requires
            well_formed(old(self)@),
        ensures
            final(self)@ == (RoomView { members: left(old(self)@.members, pid@), ..old(self)@ }),
            well_formed(final(self)@),
    {
        proof {
            lemma_leave_well_formed(self@, pid@);
        }
        let ghost ms = old(self)@.members;
        let ghost pred = |m: MemberView| m.0 != pid@;
        let mut kept: Vec<Participant> = Vec::new();
        let mut i: usize = 0;
        while i < self.participants.len()
            invariant
                i <= self.participants.len(),
                self@ == old(self)@,
                ms == self@.members,
                ms.len() == self.participants.len(),
                pred == (|m: MemberView| m.0 != pid@),
                kept@.map_values(|p: Participant| p@) == ms.take(i as int).filter(pred),
            decreases self.participants.len() - i,
        {
            let keep = !(self.participants[i].id == *pid);
            proof {
                assert(ms.take(i + 1).drop_last() == ms.take(i as int));
                assert(ms.take(i + 1).last() == ms[i as int]);
                reveal(Seq::filter);
            }
            if keep {
                let p = Participant { id: self.participants[i].id.clone(), conn: self.participants[i].conn };
                kept.push(p);
                proof {
                    assert(kept@.map_values(|p: Participant| p@) == ms.take(i as int).filter(
                        pred,
                    ).push(ms[i as int]));
                }
            }
            i = i + 1;
        }
        proof {
            assert(ms.take(i as int) == ms);
        }
        self.participants = kept;
    }

    /// Overwrites the document with `payload` and returns the connection
    /// keys to deliver it to: every current member, the sender included,
    /// exactly once each, in membership order. Both effects see the same
    /// membership.
    pub fn apply_and_broadcast(&mut self, payload: String) -> (to: Vec<u64>)
        ensures
            final(self)@ == updated(old(self)@, payload@),
            final(self)@.content == payload@,
            final(self)@.members == old(self)@.members,
            final(self)@.id == old(self)@.id,
            to@ == recipients(old(self)@.members),
    {
        self.document.set_content(payload);
        let mut to: Vec<u64> = Vec::new();
        let mut i: usize = 0;
        while i < self.participants.len()
            invariant
                i <= self.participants.len(),
                self@.members.len() == self.participants.len(),
                to@ == recipients(self@.members).take(i as int),
            decreases self.participants.len() - i,
        {
            to.push(self.participants[i].conn);
            proof {
                assert(recipients(self@.members).take(i + 1) == recipients(self@.members).take(
                    i as int,
                ).push(self@.members[i as int].1));
            }
            i = i + 1;
        }
        proof {
            assert(recipients(self@.members).take(i as int) == recipients(self@.members));
        }
        to
    }
}

} // verus!
