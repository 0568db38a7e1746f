//! The registry of rooms: one room for each name that was ever asked for.
//!
//! A room is known by its handle, its place in the registry. Rooms are never
//! removed and never move, so a handle stays good, and stays the handle of
//! the same name, for as long as the registry lives.

use crate::chat_room::{ChatRoom, RoomState};
use crate::text::same_text;
use vstd::prelude::*;

verus! {

/// A registry as mathematics: its rooms, each at the place that is its
/// handle.
pub struct ChatMapState {
    pub rooms: Seq<RoomState>,
}

impl ChatMapState {
    /// The registry without rooms.
    pub open spec fn new() -> ChatMapState {
        ChatMapState { rooms: Seq::empty() }
    }

    /// Every room is well formed, and no two rooms have the same name.
    pub open spec fn wf(self) -> bool {
        &&& forall|i: int| 0 <= i < self.rooms.len() ==> (#[trigger] self.rooms[i]).wf()
        &&& forall|i: int, j: int|
            0 <= i < j < self.rooms.len() ==> (#[trigger] self.rooms[i]).name
                != (#[trigger] self.rooms[j]).name
    }

    /// Whether `room` is the handle of the room called `name`.
    pub open spec fn is_handle(self, room: int, name: Seq<char>) -> bool {
        0 <= room < self.rooms.len() && self.rooms[room].name == name
    }

    /// The handle of the room called `name`, if there is such a room.
    pub open spec fn find(self, name: Seq<char>) -> Option<int> {
        if exists|room: int| self.is_handle(room, name) {
            Some(choose|room: int| self.is_handle(room, name))
        } else {
            None
        }
    }

    /// The registry after a room called `name` was asked for, and that room's
    /// handle: the registry as it was and the handle that the name already
    /// had, or else the registry with a new, empty room at its end.
    pub open spec fn find_or_create(self, name: Seq<char>) -> (ChatMapState, int) {
        match self.find(name) {
            Some(room) => (self, room),
            None => (
                ChatMapState { rooms: self.rooms.push(RoomState::new(name)) },
                self.rooms.len() as int,
            ),
        }
    }

    /// The registry after rooms of these names were asked for, one after the
    /// other.
    pub open spec fn find_or_create_all(self, names: Seq<Seq<char>>) -> ChatMapState
        decreases names.len(),
    {
        if names.len() == 0 {
            self
        } else {
            self.find_or_create_all(names.drop_last()).find_or_create(names.last()).0
        }
    }

    /// Whether `later` has every room of this registry, at the same place and
    /// under the same name.
    pub open spec fn grows_to(self, later: ChatMapState) -> bool {
        &&& self.rooms.len() <= later.rooms.len()
        &&& forall|room: int|
            0 <= room < self.rooms.len() ==> (#[trigger] later.rooms[room]).name
                == self.rooms[room].name
    }

    /// The registry after a message was posted to the room with this handle:
    /// that room has the message, and every other room is as it was.
    pub open spec fn post(self, room: int, message: Seq<char>) -> ChatMapState {
        ChatMapState { rooms: self.rooms.update(room, self.rooms[room].post(message)) }
    }
}

/// In a well-formed registry a name has at most one handle, and `find`
/// returns it.
pub proof fn lemma_find_is_the_handle(chat_map: ChatMapState, name: Seq<char>, room: int)
    requires
        chat_map.wf(),
    ensures
        chat_map.is_handle(room, name) <==> chat_map.find(name) == Some(room),
{
    if chat_map.is_handle(room, name) {
        let found = choose|found: int| chat_map.is_handle(found, name);
        if found < room {
            assert(chat_map.rooms[found].name != chat_map.rooms[room].name);
        } else if room < found {
            assert(chat_map.rooms[room].name != chat_map.rooms[found].name);
        }
    }
}

/// Asking for a room keeps the registry well formed, keeps every room at its
/// place, and from then on the name has the handle that was returned.
pub proof fn lemma_find_or_create_grows(chat_map: ChatMapState, name: Seq<char>)
    requires
        chat_map.wf(),
    ensures
        chat_map.find_or_create(name).0.wf(),
        chat_map.grows_to(chat_map.find_or_create(name).0),
        chat_map.find_or_create(name).0.find(name) == Some(chat_map.find_or_create(name).1),
{
    let (after, room) = chat_map.find_or_create(name);
    if chat_map.find(name) is None {
        assert forall|i: int| 0 <= i < chat_map.rooms.len() implies chat_map.rooms[i].name
            != name by {
            assert(!chat_map.is_handle(i, name));
        }
        assert(after.wf());
        assert(after.is_handle(room, name));
    }
    lemma_find_is_the_handle(after, name, room);
}

/// Posting keeps the registry well formed and every room at its place, and
/// changes no room but the one posted to.
pub proof fn lemma_post_stays_in_its_room(chat_map: ChatMapState, room: int, message: Seq<char>)
    requires
        chat_map.wf(),
        0 <= room < chat_map.rooms.len(),
    ensures
        chat_map.post(room, message).wf(),
        chat_map.grows_to(chat_map.post(room, message)),
        chat_map.post(room, message).rooms.len() == chat_map.rooms.len(),
        forall|other: int|
            0 <= other < chat_map.rooms.len() && other != room ==> chat_map.post(
                room,
                message,
            ).rooms[other] == chat_map.rooms[other],
{
}

/// A handle lasts: in a registry that has grown out of another, a name that
/// had a handle still has that handle.
pub proof fn lemma_handles_last(
    chat_map: ChatMapState,
    later: ChatMapState,
    name: Seq<char>,
    room: int,
)
    requires
        chat_map.wf(),
        later.wf(),
        chat_map.grows_to(later),
        chat_map.find(name) == Some(room),
    ensures
        later.find(name) == Some(room),
{
    lemma_find_is_the_handle(chat_map, name, room);
    assert(later.rooms[room].name == name);
    lemma_find_is_the_handle(later, name, room);
}

/// Asking for a run of rooms keeps the registry well formed and every room
/// at its place.
pub proof fn lemma_find_or_create_all_grows(chat_map: ChatMapState, names: Seq<Seq<char>>)
    requires
        chat_map.wf(),
    ensures
        chat_map.find_or_create_all(names).wf(),
        chat_map.grows_to(chat_map.find_or_create_all(names)),
    decreases names.len(),
{
    if names.len() > 0 {
        let before = chat_map.find_or_create_all(names.drop_last());
        lemma_find_or_create_all_grows(chat_map, names.drop_last());
        lemma_find_or_create_grows(before, names.last());
        let after = before.find_or_create(names.last()).0;
        assert forall|room: int| 0 <= room < chat_map.rooms.len() implies (
        #[trigger] after.rooms[room]).name == chat_map.rooms[room].name by {
            assert(before.rooms[room].name == chat_map.rooms[room].name);
        }
    }
}

/// Whoever asks for a room by the same name gets the same room.
///
/// A room called `name` is asked for. Then rooms of any names are asked for,
/// in any number and order, `name` itself among them or not. Whoever asks
/// for `name` after that gets the handle that the first caller got, the
/// registry makes no second room for it, and the room at that handle is
/// called `name`.
pub proof fn lemma_same_name_same_room(
    chat_map: ChatMapState,
    name: Seq<char>,
    others: Seq<Seq<char>>,
)
    requires
        chat_map.wf(),
    ensures
        ({
            let (found, room) = chat_map.find_or_create(name);
            let later = found.find_or_create_all(others);
            &&& later.find_or_create(name) == (later, room)
            &&& later.rooms[room].name == name
        }),
{
    let (found, room) = chat_map.find_or_create(name);
    lemma_find_or_create_grows(chat_map, name);
    let later = found.find_or_create_all(others);
    lemma_find_or_create_all_grows(found, others);
    lemma_handles_last(found, later, name, room);
    lemma_find_is_the_handle(later, name, room);
}

/// The registry of rooms.
pub struct ChatMap {
    rooms: Vec<ChatRoom>,
}

impl View for ChatMap {
    type V = ChatMapState;

    closed spec fn view(&self) -> ChatMapState {
        ChatMapState { rooms: Seq::new(self.rooms@.len(), |i: int| self.rooms@[i]@) }
    }
}

impl ChatMap {
    /// Holds of every registry at all times: it is well formed.
    #[verifier::type_invariant]
    pub open spec fn inv(self) -> bool {
        self@.wf()
    }

    /// A registry without rooms.
    pub fn new() -> (chat_map: ChatMap)
        ensures
            chat_map@ == ChatMapState::new(),
    {
        let chat_map = ChatMap { rooms: Vec::new() };
        assert(chat_map@.rooms =~= Seq::<RoomState>::empty());
        chat_map
    }

    /// How many rooms there are; the handles are the numbers below it.
    pub fn len(&self) -> (len: usize)
        ensures
            len == self@.rooms.len(),
    {
        proof {
            use_type_invariant(self);
        }
        self.rooms.len()
    }

    /// The handle of the room called `name`, if there is such a room.
    pub fn find(&self, name: &str) -> (found: Option<usize>)
        ensures
            match found {
                Some(room) => self@.find(name@) == Some(room as int),
                None => self@.find(name@) is None,
            },
    {
        proof {
            use_type_invariant(self);
        }
        let mut i: usize = 0;
        while i < self.rooms.len()
            invariant
                i <= self.rooms.len(),
                self@.wf(),
                forall|j: int| 0 <= j < i ==> !self@.is_handle(j, name@),
            decreases self.rooms.len() - i,
        {
            if same_text(self.rooms[i].name(), name) {
                assert(self@.is_handle(i as int, name@));
                return Some(i);
            }
            i = i + 1;
        }
        None
    }

    /// The handle of the room called `name`. The room is made, empty, if
    /// there was none of that name; otherwise nothing changes. Either way the
    /// handle is the one that every earlier and every later call with this
    /// name returns.
    pub fn find_or_create(&mut self, name: &str) -> (room: usize)
        ensures
            (final(self)@, room as int) == old(self)@.find_or_create(name@),
    {
        proof {
            use_type_invariant(&*self);
        }
        match self.find(name) {
            Some(room) => room,
            None => {
                let room = self.rooms.len();
                let mut rooms = Vec::new();
                std::mem::swap(&mut rooms, &mut self.rooms);
                rooms.push(ChatRoom::new(name));
                proof {
                    let before = old(self)@;
                    let after = ChatMapState {
                        rooms: Seq::new(rooms@.len(), |i: int| rooms@[i]@),
                    };
                    assert(after.rooms =~= before.rooms.push(RoomState::new(name@)));
                    assert forall|i: int| 0 <= i < before.rooms.len() implies before.rooms[i].name
                        != name@ by {
                        assert(!before.is_handle(i, name@));
                    }
                    assert(after.wf());
                }
                self.rooms = rooms;
                room
            },
        }
    }

    /// The room with this handle.
    pub fn room(&self, room: usize) -> (chat_room: &ChatRoom)
        requires
            room < self@.rooms.len(),
        ensures
            chat_room@ == self@.rooms[room as int],
    {
        proof {
            use_type_invariant(self);
        }
        &self.rooms[room]
    }

    /// Posts a message to the room with this handle. No other room changes.
    pub fn post(&mut self, room: usize, message: String)
        requires
            room < old(self)@.rooms.len(),
            old(self)@.rooms[room as int].posted() < u64::MAX,
        ensures
            final(self)@ == old(self)@.post(room as int, message@),
            forall|other: int|
                0 <= other < old(self)@.rooms.len() && other != room
                    ==> #[trigger] final(self)@.rooms[other] == old(self)@.rooms[other],
    {
        proof {
            use_type_invariant(&*self);
        }
        let mut rooms = Vec::new();
        std::mem::swap(&mut rooms, &mut self.rooms);
        rooms[room].post(message);
        proof {
            let after = ChatMapState { rooms: Seq::new(rooms@.len(), |i: int| rooms@[i]@) };
            assert(after.rooms =~= old(self)@.post(room as int, message@).rooms);
            assert(after.wf());
        }
        self.rooms = rooms;
    }
}

} // verus!
