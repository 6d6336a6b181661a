//! The process-wide mapping from room id to room. The room created `n`-th
//! has id `room_<n>`; rooms are never removed, so the `n`-th room sits at
//! position `n - 1` and ids are unique keys.
use vstd::prelude::*;
use crate::naming::{format_room_name, lemma_room_name_injective, room_name};

verus! {

/// Rooms in order of creation. `R` is how a room is held: the room itself,
/// or a handle to it that can be locked on its own.
pub struct Registry<R> {
    rooms: Vec<R>,
}

/// The room named by `id` among `rooms`, if any.
pub open spec fn lookup<R>(rooms: Seq<R>, id: Seq<char>) -> Option<R> {
    if exists|k: int| 0 <= k < rooms.len() && #[trigger] room_name((k + 1) as nat) == id {
        let k = choose|k: int| 0 <= k < rooms.len() && #[trigger] room_name((k + 1) as nat) == id;
        Some(rooms[k])
    } else {
        None
    }
}

/// The rooms held, as a map from room id to room.
pub open spec fn room_map<R>(rooms: Seq<R>) -> Map<Seq<char>, R> {
    Map::new(|id: Seq<char>| lookup(rooms, id) is Some, |id: Seq<char>| lookup(rooms, id)->0)
}

/// The room at position `k` is the one that `room_<k + 1>` names.
pub proof fn lemma_lookup_index<R>(rooms: Seq<R>, k: int)
    requires
        0 <= k < rooms.len(),
    ensures
        lookup(rooms, room_name((k + 1) as nat)) == Some(rooms[k]),
{
    let id = room_name((k + 1) as nat);
    assert(0 <= k < rooms.len() && room_name((k + 1) as nat) == id);
    let j = choose|j: int| 0 <= j < rooms.len() && #[trigger] room_name((j + 1) as nat) == id;
    lemma_room_name_injective((j + 1) as nat, (k + 1) as nat);
}

impl<R> View for Registry<R> {
    type V = Seq<R>;

    closed spec fn view(&self) -> Seq<R> {
        self.rooms@
    }
}

impl<R> Registry<R> {
    /// An empty registry.
    pub fn new() -> (r: Registry<R>)
        ensures
            r@ == Seq::<R>::empty(),
    {
        Registry { rooms: Vec::new() }
    }

    /// The number of rooms created so far.
    pub fn room_count(&self) -> (r: usize)
        ensures
            r == self@.len(),
    {
        self.rooms.len()
    }

    /// The id that the next room created will get.
    pub fn next_room_id(&self) -> (id: String)
        requires
            self@.len() < u64::MAX,
        ensures
            id@ == room_name((self@.len() + 1) as nat),
    {
        format_room_name(self.rooms.len() as u64 + 1)
    }

    /// Adds `room` as a new room and returns its id, `room_<n>` where `n` is
    /// the room count after the insertion. Existing rooms are untouched.
    pub fn create_room(&mut self, room: R) -> (id: String)
        requires
            old(self)@.len() < u64::MAX,
        ensures
            id@ == room_name((old(self)@.len() + 1) as nat),
            final(self)@ == old(self)@.push(room),
            lookup(old(self)@, id@) is None,
            room_map(final(self)@) == room_map(old(self)@).insert(id@, room),
    {
        let id = self.next_room_id();
        self.rooms.push(room);
        proof {
            let o = old(self)@;
            let f = self@;
            let n = o.len();
            assert forall|k: int| 0 <= k < o.len() implies #[trigger] room_name((k + 1) as nat) != id@ by {
                if room_name((k + 1) as nat) == id@ {
                    lemma_room_name_injective((k + 1) as nat, (n + 1) as nat);
                }
            }
            lemma_lookup_index(f, n as int);
            assert forall|s: Seq<char>| s != id@ implies lookup(f, s) == lookup(o, s) by {
                if lookup(o, s) is Some {
                    let k = choose|k: int| 0 <= k < o.len() && #[trigger] room_name((k + 1) as nat) == s;
                    lemma_lookup_index(o, k);
                    lemma_lookup_index(f, k);
                }
                if lookup(f, s) is Some {
                    let k = choose|k: int| 0 <= k < f.len() && #[trigger] room_name((k + 1) as nat) == s;
                    lemma_lookup_index(f, k);
                    if k < o.len() {
                        lemma_lookup_index(o, k);
                    }
                }
            }
            assert(room_map(f) =~= room_map(o).insert(id@, room));
        }
        id
    }

    /// The room that `room_id` names, or `None` where no room has that id.
    /// Never changes the registry.
    pub fn get_room(&self, room_id: &String) -> (r: Option<&R>)
        ensures
            r matches Some(x) ==> lookup(self@, room_id@) == Some(*x),
            r is None ==> lookup(self@, room_id@) is None,
    {
        let mut k: usize = 0;
        while k < self.rooms.len()
            invariant
                k <= self.rooms.len(),
                forall|j: int| 0 <= j < k ==> #[trigger] room_name((j + 1) as nat) != room_id@,
            decreases self.rooms.len() - k,
        {
            let name = format_room_name(k as u64 + 1);
            if name == *room_id {
                proof {
                    lemma_lookup_index(self@, k as int);
                }
                return Some(&self.rooms[k]);
            }
            k = k + 1;
        }
        None
    }
}

} // verus!
