//! One connected client: the rooms it has joined, and what each of its
//! requests does.
//!
//! [`handle`] takes one request at a time. It changes the client's rooms and
//! the registry, and says what is left to do outside: start a reader for a
//! room that was just joined, send a report back to the client, or nothing.
//!
//! Each time a client enters a room, its reader for that room gets a number
//! that no other reader of this client has or ever had. The client keeps the
//! number while it is in the room. A reader shows its number at every turn,
//! and only the reader whose number the client keeps passes anything on: a
//! reader from an earlier stay in the room ends at its next turn.

use crate::chat_map::{
    lemma_find_is_the_handle, lemma_find_or_create_grows, lemma_handles_last,
    lemma_post_stays_in_its_room, ChatMap, ChatMapState,
};
use crate::chat_room::{forward, Delivery, Receiver, Turn};
use crate::text::same_text;
use crate::{ClientAction, Command, Event, ServerAction};
use vstd::prelude::*;
use vstd::string::StringExecFns;

verus! {

/// A client as mathematics: for each room that it is in, the number of its
/// reader there, and how many readers it has started in all. The next reader
/// gets that count as its number.
pub struct ClientState {
    pub rooms: Map<Seq<char>, nat>,
    pub started: nat,
}

impl ClientState {
    /// A client that is in no room and has started no reader.
    pub open spec fn new() -> ClientState {
        ClientState { rooms: Map::empty(), started: 0 }
    }

    /// Every reader that the client keeps has been started: its number is
    /// below the count.
    pub open spec fn wf(self) -> bool {
        forall|chat_name: Seq<char>| #[trigger]
            self.rooms.contains_key(chat_name) ==> self.rooms[chat_name] < self.started
    }

    /// Whether the client is in the room of this name.
    pub open spec fn is_in_room(self, chat_name: Seq<char>) -> bool {
        self.rooms.contains_key(chat_name)
    }

    /// Whether the client is in the room of this name and the reader with
    /// this number is the one it keeps there.
    pub open spec fn has_reader(self, chat_name: Seq<char>, reader: nat) -> bool {
        self.rooms.contains_key(chat_name) && self.rooms[chat_name] == reader
    }

    /// The client after it has entered a room: it keeps a reader there with
    /// the next number.
    pub open spec fn join(self, chat_name: Seq<char>) -> ClientState {
        ClientState { rooms: self.rooms.insert(chat_name, self.started), started: self.started + 1 }
    }

    /// The client after it has left a room: it keeps no reader there.
    pub open spec fn leave(self, chat_name: Seq<char>) -> ClientState {
        ClientState { rooms: self.rooms.remove(chat_name), ..self }
    }

    /// The client after it has left every room.
    pub open spec fn clear(self) -> ClientState {
        ClientState { rooms: Map::empty(), ..self }
    }
}

/// The rooms that one client has joined, each with the number of the
/// client's reader there.
pub struct Client {
    rooms: Vec<String>,
    readers: Vec<u64>,
    started: u64,
}

/// What is left to do after a request was handled.
#[derive(Debug, Clone, PartialEq, Eq)]
pub enum Reply {
    /// The client has newly joined the room of this name, which has this
    /// handle: start a reader with this number that drains the room into the
    /// client, from this place in the feed.
    Joined { chat_name: String, room: usize, receiver: Receiver, reader: u64 },
    /// Nothing is to be sent. The client's rooms or a feed may have changed:
    /// readers that wait take their next turn, at which the reader of a room
    /// that the client has left ends.
    Done,
    /// Send this to the client, and to nobody else.
    Report(ServerAction),
    /// The connection is over and the client has left every room: close the
    /// socket. The client's readers end at their next turn.
    Close,
}

/// A [`Reply`] as mathematics.
pub enum Outcome {
    Joined { chat_name: Seq<char>, room: int, receiver: nat, reader: nat },
    Done,
    Report(Event),
    Close,
}

/// What a connection brings in one round of its loop.
#[derive(Debug, Clone, PartialEq, Eq)]
pub enum Input {
    /// A request of the client.
    Request(ClientAction),
    /// A line that is no request.
    Malformed,
    /// The end of what the client sends, or a failure to read it.
    End,
    /// A report to the client could not be written.
    WriteFailed,
}

/// An [`Input`] as mathematics.
pub enum Arrival {
    Request(Command),
    Malformed,
    End,
    WriteFailed,
}

impl View for Input {
    type V = Arrival;

    open spec fn view(&self) -> Arrival {
        match *self {
            Input::Request(action) => Arrival::Request(action@),
            Input::Malformed => Arrival::Malformed,
            Input::End => Arrival::End,
            Input::WriteFailed => Arrival::WriteFailed,
        }
    }
}

impl View for Reply {
    type V = Outcome;

    open spec fn view(&self) -> Outcome {
        match *self {
            Reply::Joined { chat_name, room, receiver, reader } => Outcome::Joined {
                chat_name: chat_name@,
                room: room as int,
                receiver: receiver@,
                reader: reader as nat,
            },
            Reply::Done => Outcome::Done,
            Reply::Report(action) => Outcome::Report(action@),
            Reply::Close => Outcome::Close,
        }
    }
}

/// The words that tell a client that it asked for something in a room it has
/// not joined.
pub open spec fn not_in_room(chat_name: Seq<char>) -> Seq<char> {
    "You are not in "@ + chat_name
}

/// Whether the room called `chat_name` can take one more message: it does
/// not exist yet, or it has not handed out every sequence number.
pub open spec fn has_room_for_post(chat_map: ChatMapState, chat_name: Seq<char>) -> bool {
    match chat_map.find(chat_name) {
        Some(room) => chat_map.rooms[room].posted() < u64::MAX,
        None => true,
    }
}

/// What one request does: the client and the registry afterwards, and what
/// is left to do.
///
/// - Join: the room is found or made. If the client is not in it, the client
///   is from now on, and a reader with the next number is to be started at
///   the feed's end. If the client is in it already, nothing else happens.
/// - Leave: the client is no longer in the room and keeps no reader there;
///   if it was not in it, the client is told so and nothing changes.
/// - Post: the message goes to the room; if the client is not in it, the
///   client is told so and nothing changes.
pub open spec fn step(client: ClientState, chat_map: ChatMapState, command: Command) -> (
    ClientState,
    ChatMapState,
    Outcome,
) {
    match command {
        Command::Join { chat_name } => {
            let (found, room) = chat_map.find_or_create(chat_name);
            if client.is_in_room(chat_name) {
                (client, found, Outcome::Done)
            } else {
                (
                    client.join(chat_name),
                    found,
                    Outcome::Joined {
                        chat_name,
                        room,
                        receiver: found.rooms[room].posted(),
                        reader: client.started,
                    },
                )
            }
        },
        Command::Leave { chat_name } => {
            if client.is_in_room(chat_name) {
                (client.leave(chat_name), chat_map, Outcome::Done)
            } else {
                (client, chat_map, Outcome::Report(Event::Error(not_in_room(chat_name))))
            }
        },
        Command::Post { chat_name, message } => {
            if client.is_in_room(chat_name) {
                let (found, room) = chat_map.find_or_create(chat_name);
                (client, found.post(room, message), Outcome::Done)
            } else {
                (client, chat_map, Outcome::Report(Event::Error(not_in_room(chat_name))))
            }
        },
    }
}

/// What a run of requests does, one after the other: the client and the
/// registry at its end.
pub open spec fn run(client: ClientState, chat_map: ChatMapState, commands: Seq<Command>) -> (
    ClientState,
    ChatMapState,
)
    decreases commands.len(),
{
    if commands.len() == 0 {
        (client, chat_map)
    } else {
        let before = run(client, chat_map, commands.drop_last());
        let after = step(before.0, before.1, commands.last());
        (after.0, after.1)
    }
}

/// The numbers of the readers that a run of requests has started for one
/// room, in the order in which they were started.
pub open spec fn readers_started(
    client: ClientState,
    chat_map: ChatMapState,
    commands: Seq<Command>,
    chat_name: Seq<char>,
) -> Seq<nat>
    decreases commands.len(),
{
    if commands.len() == 0 {
        Seq::empty()
    } else {
        let before = run(client, chat_map, commands.drop_last());
        let earlier = readers_started(client, chat_map, commands.drop_last(), chat_name);
        match step(before.0, before.1, commands.last()).2 {
            Outcome::Joined { chat_name: entered, reader, .. } => if entered == chat_name {
                earlier.push(reader)
            } else {
                earlier
            },
            _ => earlier,
        }
    }
}

/// A request keeps the client well formed and never takes back a number.
pub proof fn lemma_step_keeps_client(client: ClientState, chat_map: ChatMapState, command: Command)
    requires
        client.wf(),
    ensures
        step(client, chat_map, command).0.wf(),
        client.started <= step(client, chat_map, command).0.started,
{
}

/// A request keeps the registry well formed and every room at its place.
pub proof fn lemma_step_grows(client: ClientState, chat_map: ChatMapState, command: Command)
    requires
        chat_map.wf(),
    ensures
        step(client, chat_map, command).1.wf(),
        chat_map.grows_to(step(client, chat_map, command).1),
{
    match command {
        Command::Join { chat_name } => {
            lemma_find_or_create_grows(chat_map, chat_name);
        },
        Command::Leave { chat_name } => {},
        Command::Post { chat_name, message } => {
            if client.is_in_room(chat_name) {
                lemma_find_or_create_grows(chat_map, chat_name);
                let (found, room) = chat_map.find_or_create(chat_name);
                lemma_find_is_the_handle(found, chat_name, room);
                lemma_post_stays_in_its_room(found, room, message);
                let after = found.post(room, message);
                assert forall|i: int| 0 <= i < chat_map.rooms.len() implies (
                #[trigger] after.rooms[i]).name == chat_map.rooms[i].name by {
                    assert(found.rooms[i].name == chat_map.rooms[i].name);
                }
            }
        },
    }
}

/// A run of requests keeps the registry well formed and every room at its
/// place, so a name that had a handle before the run has the same handle
/// after it: whatever clients ask in between, whoever asks for a room by the
/// same name is handed the same room.
pub proof fn lemma_run_grows(client: ClientState, chat_map: ChatMapState, commands: Seq<Command>)
    requires
        chat_map.wf(),
    ensures
        run(client, chat_map, commands).1.wf(),
        chat_map.grows_to(run(client, chat_map, commands).1),
        forall|chat_name: Seq<char>|
            chat_map.find(chat_name) is Some ==> run(client, chat_map, commands).1.find(chat_name)
                == #[trigger] chat_map.find(chat_name),
    decreases commands.len(),
{
    let end = run(client, chat_map, commands).1;
    if commands.len() > 0 {
        let before = run(client, chat_map, commands.drop_last());
        lemma_run_grows(client, chat_map, commands.drop_last());
        lemma_step_grows(before.0, before.1, commands.last());
        assert forall|room: int| 0 <= room < chat_map.rooms.len() implies (
        #[trigger] end.rooms[room]).name == chat_map.rooms[room].name by {
            assert(before.1.rooms[room].name == chat_map.rooms[room].name);
        }
    }
    assert forall|chat_name: Seq<char>| chat_map.find(chat_name) is Some implies end.find(
        chat_name,
    ) == #[trigger] chat_map.find(chat_name) by {
        lemma_handles_last(chat_map, end, chat_name, chat_map.find(chat_name)->0);
    }
}

/// A client has one reader for each room it is in, and none for any other.
///
/// Take any run of requests and one room. Every reader that the run has
/// started for the room has a number of its own: the numbers rise in the
/// order of starting and none was in use before the run. At the end of the
/// run the client keeps at most one of these readers, and it is the one
/// started last. If the client is in the room, the reader it keeps is that
/// last one, or, if the run has started none, the one it kept before the
/// run. If the client is not in the room, it keeps none.
pub proof fn lemma_one_live_reader(
    client: ClientState,
    chat_map: ChatMapState,
    commands: Seq<Command>,
    chat_name: Seq<char>,
)
    requires
        client.wf(),
    ensures
        ({
            let end = run(client, chat_map, commands).0;
            let started = readers_started(client, chat_map, commands, chat_name);
            &&& end.wf()
            &&& client.started <= end.started
            &&& forall|i: int|
                0 <= i < started.len() ==> client.started <= #[trigger] started[i] < end.started
            &&& forall|i: int, j: int|
                0 <= i < j < started.len() ==> #[trigger] started[i] < #[trigger] started[j]
            &&& forall|i: int|
                0 <= i < started.len() && end.has_reader(chat_name, #[trigger] started[i]) ==> i
                    == started.len() - 1
            &&& end.is_in_room(chat_name) ==> end.rooms[chat_name] == if started.len() > 0 {
                started.last()
            } else {
                client.rooms[chat_name]
            }
            &&& end.is_in_room(chat_name) && started.len() == 0 ==> client.is_in_room(chat_name)
        }),
    decreases commands.len(),
{
    if commands.len() > 0 {
        let before = run(client, chat_map, commands.drop_last());
        let earlier = readers_started(client, chat_map, commands.drop_last(), chat_name);
        lemma_one_live_reader(client, chat_map, commands.drop_last(), chat_name);
        lemma_step_keeps_client(before.0, before.1, commands.last());
        let end = run(client, chat_map, commands).0;
        let started = readers_started(client, chat_map, commands, chat_name);
        let entered_here = match step(before.0, before.1, commands.last()).2 {
            Outcome::Joined { chat_name: entered, .. } => entered == chat_name,
            _ => false,
        };
        if entered_here {
            assert(started == earlier.push(before.0.started));
            assert(end == before.0.join(chat_name));
            assert forall|i: int| 0 <= i < started.len() implies client.started
                <= #[trigger] started[i] < end.started by {
                if i < earlier.len() {
                    assert(started[i] == earlier[i]);
                }
            }
            assert forall|i: int, j: int| 0 <= i < j < started.len() implies #[trigger] started[i]
                < #[trigger] started[j] by {
                assert(started[i] == earlier[i]);
                if j < earlier.len() {
                    assert(started[j] == earlier[j]);
                }
            }
            assert forall|i: int|
                0 <= i < started.len() && end.has_reader(
                    chat_name,
                    #[trigger] started[i],
                ) implies i == started.len() - 1 by {
                if i < earlier.len() {
                    assert(started[i] == earlier[i]);
                }
            }
        } else {
            assert(started == earlier);
            assert(end.is_in_room(chat_name) ==> before.0.is_in_room(chat_name)
                && end.rooms[chat_name] == before.0.rooms[chat_name]);
            assert forall|i: int| 0 <= i < started.len() implies client.started
                <= #[trigger] started[i] < end.started by {
                assert(started[i] == earlier[i]);
            }
            assert forall|i: int|
                0 <= i < started.len() && end.has_reader(
                    chat_name,
                    #[trigger] started[i],
                ) implies i == started.len() - 1 by {
                assert(before.0.has_reader(chat_name, earlier[i]));
            }
        }
    }
}

/// Only the reader that the client keeps gets a turn other than to end.
///
/// After any run of requests, every reader that the run has started for a
/// room, but the one started last, ends at its next turn, whatever the feed
/// gives it. The one started last ends too unless the client is in the
/// room. So of a message posted to a room, a client is sent one copy at
/// most.
pub proof fn lemma_earlier_readers_end(
    client: ClientState,
    chat_map: ChatMapState,
    commands: Seq<Command>,
    chat_name: Seq<char>,
    i: int,
    delivery: Option<Delivery>,
)
    requires
        client.wf(),
        0 <= i < readers_started(client, chat_map, commands, chat_name).len(),
    ensures
        ({
            let end = run(client, chat_map, commands).0;
            let started = readers_started(client, chat_map, commands, chat_name);
            let turn = forward(end.has_reader(chat_name, started[i]), chat_name, delivery);
            &&& i < started.len() - 1 ==> turn == Turn::Stop
            &&& !end.is_in_room(chat_name) ==> turn == Turn::Stop
            &&& i == started.len() - 1 && end.is_in_room(chat_name) ==> turn == forward(
                true,
                chat_name,
                delivery,
            )
        }),
{
    lemma_one_live_reader(client, chat_map, commands, chat_name);
}

/// A message posted by a client that is in the room goes to that room and to
/// no other: the room called `chat_name` is the room it was with the message
/// posted to it, and every other room is as it was.
pub proof fn lemma_post_reaches_its_room(
    client: ClientState,
    chat_map: ChatMapState,
    chat_name: Seq<char>,
    message: Seq<char>,
    room: int,
)
    requires
        chat_map.wf(),
        client.is_in_room(chat_name),
        chat_map.find(chat_name) == Some(room),
    ensures
        ({
            let after = step(client, chat_map, Command::Post { chat_name, message }).1;
            &&& after.rooms.len() == chat_map.rooms.len()
            &&& after.rooms[room] == chat_map.rooms[room].post(message)
            &&& forall|other: int|
                0 <= other < chat_map.rooms.len() && other != room ==> after.rooms[other]
                    == chat_map.rooms[other]
        }),
{
    lemma_find_is_the_handle(chat_map, chat_name, room);
}

/// Joining a room twice is joining it once.
///
/// The first request puts the client into the room. The second changes
/// neither the client nor the registry and starts no reader, so a client has
/// one reader for a room however often it asks to join it.
pub proof fn lemma_join_is_idempotent(
    client: ClientState,
    chat_map: ChatMapState,
    chat_name: Seq<char>,
)
    requires
        chat_map.wf(),
    ensures
        ({
            let once = step(client, chat_map, Command::Join { chat_name });
            let twice = step(once.0, once.1, Command::Join { chat_name });
            &&& once.0.is_in_room(chat_name)
            &&& twice.0 == once.0
            &&& twice.1 == once.1
            &&& twice.2 == Outcome::Done
        }),
{
    lemma_find_or_create_grows(chat_map, chat_name);
}

/// A reader is started exactly when the client enters a room: a request
/// yields [`Outcome::Joined`] if and only if it is a Join of a room that the
/// client was not in. The reader is then for the room of that name, stands
/// at the end of its feed, and has the number that the client keeps for the
/// room from then on.
pub proof fn lemma_reader_starts_on_entry(
    client: ClientState,
    chat_map: ChatMapState,
    command: Command,
)
    requires
        chat_map.wf(),
    ensures
        ({
            let (after, registry, outcome) = step(client, chat_map, command);
            &&& outcome is Joined <==> (command matches Command::Join { chat_name }
                && !client.is_in_room(chat_name))
            &&& outcome matches Outcome::Joined { chat_name, room, receiver, reader } ==> {
                &&& command == Command::Join { chat_name }
                &&& registry.find(chat_name) == Some(room)
                &&& receiver == registry.rooms[room].posted()
                &&& reader == client.started
                &&& after == client.join(chat_name)
                &&& after.has_reader(chat_name, reader)
            }
        }),
{
    if let Command::Join { chat_name } = command {
        lemma_find_or_create_grows(chat_map, chat_name);
    }
}

/// A report goes to the client that asked, and stands for nothing else.
///
/// A request ends in a report if and only if it is a Leave or a Post for a
/// room that the client is not in; a Join never does. The report says that
/// the client is not in that room, and the request has changed nothing: no
/// room has taken a message, so no other client gets to see anything of it.
pub proof fn lemma_report_changes_nothing(
    client: ClientState,
    chat_map: ChatMapState,
    command: Command,
)
    ensures
        ({
            let (after, registry, outcome) = step(client, chat_map, command);
            &&& outcome is Report <==> match command {
                Command::Join { chat_name } => false,
                Command::Leave { chat_name } => !client.is_in_room(chat_name),
                Command::Post { chat_name, message } => !client.is_in_room(chat_name),
            }
            &&& outcome matches Outcome::Report(event) ==> {
                &&& after == client
                &&& registry == chat_map
                &&& match command {
                    Command::Join { chat_name } => false,
                    Command::Leave { chat_name } => event == Event::Error(not_in_room(chat_name)),
                    Command::Post { chat_name, message } => event == Event::Error(
                        not_in_room(chat_name),
                    ),
                }
            }
        }),
{
}

/// Leaving a room that the client is not in changes nothing: the client is
/// told that it is not in the room, its other rooms stay as they are, and so
/// does the registry with every feed in it.
pub proof fn lemma_leave_of_room_not_joined(
    client: ClientState,
    chat_map: ChatMapState,
    chat_name: Seq<char>,
)
    requires
        !client.is_in_room(chat_name),
    ensures
        step(client, chat_map, Command::Leave { chat_name }) == (
            client,
            chat_map,
            Outcome::Report(Event::Error(not_in_room(chat_name))),
        ),
{
}

/// Leaving a room touches no other room of the client: the client is in
/// every other room afterwards exactly if it was before, with the reader it
/// kept there, and the registry is as it was.
pub proof fn lemma_leave_keeps_other_rooms(
    client: ClientState,
    chat_map: ChatMapState,
    chat_name: Seq<char>,
    other: Seq<char>,
    reader: nat,
)
    requires
        other != chat_name,
    ensures
        step(client, chat_map, Command::Leave { chat_name }).0.is_in_room(other)
            == client.is_in_room(other),
        step(client, chat_map, Command::Leave { chat_name }).0.has_reader(other, reader)
            == client.has_reader(other, reader),
        step(client, chat_map, Command::Leave { chat_name }).1 == chat_map,
{
}

/// Nothing is passed on after a Leave.
///
/// Once a client's Leave of a room has been handled, every reader of that
/// room ends at its next turn and passes nothing on to the client: not what
/// the feed gives it then, and not what the feed had given it before the
/// Leave came.
pub proof fn lemma_nothing_forwarded_after_leave(
    client: ClientState,
    chat_map: ChatMapState,
    chat_name: Seq<char>,
    reader: nat,
    delivery: Option<Delivery>,
)
    ensures
        forward(
            step(client, chat_map, Command::Leave { chat_name }).0.has_reader(chat_name, reader),
            chat_name,
            delivery,
        ) == Turn::Stop,
{
}

/// Nothing is passed on by a reader from an earlier stay.
///
/// A client in a room leaves it and joins it again. The reader that it kept
/// before ends at its next turn, whatever the feed gives it: only the reader
/// that the second Join has started reads on.
pub proof fn lemma_reader_of_an_earlier_stay_ends(
    client: ClientState,
    chat_map: ChatMapState,
    chat_name: Seq<char>,
    delivery: Option<Delivery>,
)
    requires
        client.wf(),
        client.is_in_room(chat_name),
    ensures
        ({
            let left = step(client, chat_map, Command::Leave { chat_name });
            let back = step(left.0, left.1, Command::Join { chat_name });
            &&& back.2 matches Outcome::Joined { reader, .. } && reader != client.rooms[chat_name]
                && back.0.has_reader(chat_name, reader)
            &&& forward(
                back.0.has_reader(chat_name, client.rooms[chat_name]),
                chat_name,
                delivery,
            ) == Turn::Stop
        }),
{
}

spec fn seats(names: Seq<Seq<char>>, readers: Seq<u64>) -> Map<Seq<char>, nat> {
    Map::new(
        |chat_name: Seq<char>| names.contains(chat_name),
        |chat_name: Seq<char>| readers[names.index_of(chat_name)] as nat,
    )
}

proof fn lemma_seat(names: Seq<Seq<char>>, readers: Seq<u64>, i: int)
    requires
        names.no_duplicates(),
        names.len() == readers.len(),
        0 <= i < names.len(),
    ensures
        seats(names, readers).contains_key(names[i]),
        seats(names, readers)[names[i]] == readers[i],
        names.index_of(names[i]) == i,
{
    let at = names.index_of(names[i]);
    assert(names.contains(names[i]));
}

proof fn lemma_seats_push(names: Seq<Seq<char>>, readers: Seq<u64>, chat_name: Seq<char>, reader: u64)
    requires
        names.no_duplicates(),
        names.len() == readers.len(),
        !names.contains(chat_name),
    ensures
        names.push(chat_name).no_duplicates(),
        seats(names.push(chat_name), readers.push(reader)) == seats(names, readers).insert(
            chat_name,
            reader as nat,
        ),
{
    let longer = names.push(chat_name);
    assert(longer.no_duplicates()) by {
        assert forall|i: int, j: int| 0 <= i < longer.len() && 0 <= j < longer.len() && i
            != j implies longer[i] != longer[j] by {
            if i < names.len() && j < names.len() {
            } else if i < names.len() {
                assert(names.contains(names[i]));
            } else {
                assert(names.contains(names[j]));
            }
        }
    }
    assert forall|name: Seq<char>|
        seats(longer, readers.push(reader)).contains_key(name) <==> seats(names, readers).insert(
            chat_name,
            reader as nat,
        ).contains_key(name) by {
        if longer.contains(name) {
            let i = longer.index_of(name);
            if i < names.len() {
                assert(names[i] == name);
            }
        }
        if names.contains(name) {
            let i = names.index_of(name);
            assert(longer[i] == name);
        }
        if name == chat_name {
            assert(longer[names.len() as int] == name);
        }
    }
    assert forall|name: Seq<char>| seats(longer, readers.push(reader)).contains_key(
        name,
    ) implies seats(longer, readers.push(reader))[name] == seats(names, readers).insert(
        chat_name,
        reader as nat,
    )[name] by {
        let i = longer.index_of(name);
        lemma_seat(longer, readers.push(reader), i);
        if i < names.len() {
            lemma_seat(names, readers, i);
        }
    }
    assert(seats(longer, readers.push(reader)) =~= seats(names, readers).insert(
        chat_name,
        reader as nat,
    ));
}

proof fn lemma_seats_remove(names: Seq<Seq<char>>, readers: Seq<u64>, at: int)
    requires
        names.no_duplicates(),
        names.len() == readers.len(),
        0 <= at < names.len(),
    ensures
        names.remove(at).no_duplicates(),
        seats(names.remove(at), readers.remove(at)) == seats(names, readers).remove(names[at]),
{
    let shorter = names.remove(at);
    let fewer = readers.remove(at);
    assert(shorter.no_duplicates());
    assert forall|name: Seq<char>|
        seats(shorter, fewer).contains_key(name) <==> seats(names, readers).remove(
            names[at],
        ).contains_key(name) by {
        if shorter.contains(name) {
            let i = shorter.index_of(name);
            if i < at {
                assert(names[i] == name);
            } else {
                assert(names[i + 1] == name);
            }
        }
        if names.contains(name) && name != names[at] {
            let i = names.index_of(name);
            if i < at {
                assert(shorter[i] == name);
            } else {
                assert(shorter[i - 1] == name);
            }
        }
    }
    assert forall|name: Seq<char>| seats(shorter, fewer).contains_key(name) implies seats(
        shorter,
        fewer,
    )[name] == seats(names, readers).remove(names[at])[name] by {
        let i = shorter.index_of(name);
        lemma_seat(shorter, fewer, i);
        if i < at {
            lemma_seat(names, readers, i);
        } else {
            lemma_seat(names, readers, i + 1);
        }
    }
    assert(seats(shorter, fewer) =~= seats(names, readers).remove(names[at]));
}

impl View for Client {
    type V = ClientState;

    closed spec fn view(&self) -> ClientState {
        ClientState { rooms: seats(self.names(), self.readers@), started: self.started as nat }
    }
}

impl Client {
    spec fn names(self) -> Seq<Seq<char>> {
        Seq::new(self.rooms@.len(), |i: int| self.rooms@[i]@)
    }

    #[verifier::type_invariant]
    spec fn inv(self) -> bool {
        &&& self.names().no_duplicates()
        &&& self.rooms@.len() == self.readers@.len()
        &&& forall|i: int| 0 <= i < self.readers@.len() ==> self.readers@[i] < self.started
    }

    proof fn lemma_view_wf(self)
        requires
            self.inv(),
        ensures
            self@.wf(),
    {
        assert forall|chat_name: Seq<char>| #[trigger]
            self@.rooms.contains_key(chat_name) implies self@.rooms[chat_name]
            < self@.started by {
            let i = self.names().index_of(chat_name);
            lemma_seat(self.names(), self.readers@, i);
        }
    }

    /// A client that has joined no room.
    pub fn new() -> (client: Client)
        ensures
            client@ == ClientState::new(),
    {
        let client = Client { rooms: Vec::new(), readers: Vec::new(), started: 0 };
        assert(client@.rooms =~= Map::<Seq<char>, nat>::empty());
        client
    }

    fn position(&self, chat_name: &str) -> (found: Option<usize>)
        ensures
            match found {
                Some(i) => i < self.names().len() && self.names()[i as int] == chat_name@,
                None => !self.names().contains(chat_name@),
            },
    {
        let mut i: usize = 0;
        while i < self.rooms.len()
            invariant
                i <= self.rooms.len(),
                forall|j: int| 0 <= j < i ==> self.names()[j] != chat_name@,
            decreases self.rooms.len() - i,
        {
            if same_text(self.rooms[i].as_str(), chat_name) {
                return Some(i);
            }
            i = i + 1;
        }
        None
    }

    /// Whether the client has joined the room of this name and not left it
    /// since.
    pub fn is_in_room(&self, chat_name: &str) -> (member: bool)
        ensures
            member == self@.is_in_room(chat_name@),
            self@.wf(),
    {
        proof {
            use_type_invariant(self);
            self.lemma_view_wf();
        }
        self.position(chat_name).is_some()
    }

    /// Whether the client is in the room of this name and keeps the reader
    /// with this number there.
    pub fn has_reader(&self, chat_name: &str, reader: u64) -> (kept: bool)
        ensures
            kept == self@.has_reader(chat_name@, reader as nat),
    {
        proof {
            use_type_invariant(self);
        }
        match self.position(chat_name) {
            Some(at) => {
                proof {
                    lemma_seat(self.names(), self.readers@, at as int);
                }
                self.readers[at] == reader
            },
            None => false,
        }
    }

    /// Puts the client into the room of this name. Returns the number of the
    /// reader that is to be started, or `None` if the client was in the room
    /// already.
    fn join(&mut self, chat_name: String) -> (reader: Option<u64>)
        requires
            !old(self)@.is_in_room(chat_name@) ==> old(self)@.started < u64::MAX,
        ensures
            old(self)@.is_in_room(chat_name@) ==> reader is None && final(self)@ == old(self)@,
            !old(self)@.is_in_room(chat_name@) ==> reader == Some(old(self)@.started as u64)
                && final(self)@ == old(self)@.join(chat_name@),
    {
        proof {
            use_type_invariant(&*self);
        }
        if self.position(chat_name.as_str()).is_some() {
            return None;
        }
        let mut taken = Client { rooms: Vec::new(), readers: Vec::new(), started: 0 };
        std::mem::swap(self, &mut taken);
        let Client { mut rooms, mut readers, started } = taken;
        proof {
            lemma_seats_push(old(self).names(), old(self).readers@, chat_name@, started);
        }
        rooms.push(chat_name);
        readers.push(started);
        assert(Seq::new(rooms@.len(), |i: int| rooms@[i]@) =~= old(self).names().push(
            chat_name@,
        ));
        *self = Client { rooms, readers, started: started + 1 };
        Some(started)
    }

    /// Takes the client out of the room of this name. Returns whether the
    /// client was in it.
    fn leave(&mut self, chat_name: &str) -> (was_member: bool)
        ensures
            was_member == old(self)@.is_in_room(chat_name@),
            was_member ==> final(self)@ == old(self)@.leave(chat_name@),
            !was_member ==> final(self)@ == old(self)@,
    {
        proof {
            use_type_invariant(&*self);
        }
        match self.position(chat_name) {
            None => false,
            Some(at) => {
                let mut taken = Client { rooms: Vec::new(), readers: Vec::new(), started: 0 };
                std::mem::swap(self, &mut taken);
                let Client { mut rooms, mut readers, started } = taken;
                proof {
                    lemma_seats_remove(old(self).names(), old(self).readers@, at as int);
                }
                rooms.remove(at);
                readers.remove(at);
                assert(Seq::new(rooms@.len(), |i: int| rooms@[i]@) =~= old(self).names().remove(
                    at as int,
                ));
                *self = Client { rooms, readers, started };
                true
            },
        }
    }

    /// Takes the client out of every room, as when its connection ends: it
    /// keeps no reader, so every reader of this client ends at its next
    /// turn.
    pub fn clear(&mut self)
        ensures
            final(self)@ == old(self)@.clear(),
            final(self)@.wf(),
    {
        let started = self.started;
        *self = Client { rooms: Vec::new(), readers: Vec::new(), started };
        assert(self@.rooms =~= Map::<Seq<char>, nat>::empty());
    }
}

/// Tells a client that it is not in the room of this name.
pub fn not_in_room_report(chat_name: &str) -> (report: ServerAction)
    ensures
        report@ == Event::Error(not_in_room(chat_name@)),
{
    let mut text = "You are not in ".to_owned();
    text.append(chat_name);
    ServerAction::Error(text)
}

/// Whether a request can be handled within what a machine can count: a Post
/// to a room that the client is in needs a sequence number left in that
/// room, and a Join of a room that the client is not in needs a reader's
/// number left.
pub open spec fn can_handle(client: ClientState, chat_map: ChatMapState, command: Command) -> bool {
    match command {
        Command::Join { chat_name } => client.is_in_room(chat_name) || client.started < u64::MAX,
        Command::Leave { chat_name } => true,
        Command::Post { chat_name, message } => client.is_in_room(chat_name)
            ==> has_room_for_post(chat_map, chat_name),
    }
}

/// What one round of a connection's loop does: the client and the registry
/// afterwards, and what is left to do.
///
/// A request that can be handled does what [`step`] says. Anything else ends
/// the connection: a line that is no request, the end of the client's
/// input, a report that could not be written, and a request beyond what a
/// machine can count. The client then leaves every room, and the registry
/// stays as it is.
pub open spec fn round(client: ClientState, chat_map: ChatMapState, arrival: Arrival) -> (
    ClientState,
    ChatMapState,
    Outcome,
) {
    match arrival {
        Arrival::Request(command) => if can_handle(client, chat_map, command) {
            step(client, chat_map, command)
        } else {
            (client.clear(), chat_map, Outcome::Close)
        },
        _ => (client.clear(), chat_map, Outcome::Close),
    }
}

/// When a connection ends, every reader of its client ends.
///
/// A round closes the connection if and only if it brought no request that
/// can be handled. After such a round the client is in no room, so each of
/// its readers, for whatever room and with whatever number, ends at its next
/// turn and passes nothing on; no room has taken a message.
pub proof fn lemma_close_ends_every_reader(
    client: ClientState,
    chat_map: ChatMapState,
    arrival: Arrival,
    chat_name: Seq<char>,
    reader: nat,
    delivery: Option<Delivery>,
)
    ensures
        ({
            let (after, registry, outcome) = round(client, chat_map, arrival);
            &&& outcome is Close <==> !(arrival matches Arrival::Request(command) && can_handle(
                client,
                chat_map,
                command,
            ))
            &&& outcome is Close ==> {
                &&& !after.is_in_room(chat_name)
                &&& after.started == client.started
                &&& registry == chat_map
                &&& forward(after.has_reader(chat_name, reader), chat_name, delivery) == Turn::Stop
            }
        }),
{
}

/// Whether [`handle`] can take this request: see [`can_handle`].
pub fn accepts(client: &Client, chat_map: &ChatMap, action: &ClientAction) -> (accepted: bool)
    ensures
        accepted == can_handle(client@, chat_map@, action@),
{
    match action {
        ClientAction::Join { chat_name } => {
            client.is_in_room(chat_name.as_str()) || client.started < u64::MAX
        },
        ClientAction::Leave { chat_name } => true,
        ClientAction::Post { chat_name, message } => {
            if client.is_in_room(chat_name.as_str()) {
                match chat_map.find(chat_name.as_str()) {
                    Some(room) => {
                        proof {
                            use_type_invariant(chat_map);
                            lemma_find_is_the_handle(chat_map@, chat_name@, room as int);
                        }
                        !chat_map.room(room).is_exhausted()
                    },
                    None => true,
                }
            } else {
                true
            }
        },
    }
}

/// Handles one request of a client: see [`step`].
pub fn handle(client: &mut Client, chat_map: &mut ChatMap, action: ClientAction) -> (reply: Reply)
    requires
        can_handle(old(client)@, old(chat_map)@, action@),
    ensures
        (final(client)@, final(chat_map)@, reply@) == step(
            old(client)@,
            old(chat_map)@,
            action@,
        ),
        final(client)@.wf(),
{
    proof {
        use_type_invariant(&*client);
        client.lemma_view_wf();
        lemma_step_keeps_client(client@, chat_map@, action@);
    }
    match action {
        ClientAction::Join { chat_name } => {
            let room = chat_map.find_or_create(chat_name.as_str());
            match client.join(chat_name.clone()) {
                Some(reader) => {
                    let receiver = chat_map.room(room).join();
                    Reply::Joined { chat_name, room, receiver, reader }
                },
                None => Reply::Done,
            }
        },
        ClientAction::Leave { chat_name } => {
            if client.leave(chat_name.as_str()) {
                Reply::Done
            } else {
                Reply::Report(not_in_room_report(chat_name.as_str()))
            }
        },
        ClientAction::Post { chat_name, message } => {
            if client.is_in_room(chat_name.as_str()) {
                let room = chat_map.find_or_create(chat_name.as_str());
                chat_map.post(room, message);
                Reply::Done
            } else {
                Reply::Report(not_in_room_report(chat_name.as_str()))
            }
        },
    }
}

/// Takes one round of a connection's loop: see [`round`]. Every input is
/// taken; what cannot go on ends the connection.
pub fn serve(client: &mut Client, chat_map: &mut ChatMap, input: Input) -> (reply: Reply)
    ensures
        (final(client)@, final(chat_map)@, reply@) == round(
            old(client)@,
            old(chat_map)@,
            input@,
        ),
        final(client)@.wf(),
{
    match input {
        Input::Request(action) => {
            if accepts(client, chat_map, &action) {
                handle(client, chat_map, action)
            } else {
                client.clear();
                Reply::Close
            }
        },
        _ => {
            client.clear();
            Reply::Close
        },
    }
}

} // verus!
