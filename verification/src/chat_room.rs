//! A room: a named feed of messages with bounded memory.
//!
//! Every message posted to a room gets the next sequence number, counted from
//! zero. The room keeps the last [`CAPACITY`] messages. A reader holds a
//! [`Receiver`], the sequence number it will read next; one that falls behind
//! what the room still keeps is told how many messages it missed and goes on
//! from the oldest one kept.

use crate::connection::Client;
use crate::text::{decimal, decimal_text};
use crate::{Event, ServerAction};
use std::collections::VecDeque;
use vstd::prelude::*;
use vstd::string::StringExecFns;

verus! {

/// How many messages a room keeps for readers that have not caught up.
pub const CAPACITY: usize = 1000;

/// A room as mathematics: its name, how many messages it has let go, and the
/// messages it still keeps, oldest first. The message with sequence number
/// `first + i` is `backlog[i]`.
pub struct RoomState {
    pub name: Seq<char>,
    pub first: nat,
    pub backlog: Seq<Seq<char>>,
}

/// What a reader gets from a feed, as mathematics.
pub enum Delivery {
    /// The next message.
    Message(Seq<char>),
    /// So many messages were let go before the reader came to them.
    Lagged(nat),
    /// The feed has ended.
    Closed,
}

impl RoomState {
    /// A room to which nothing has been posted.
    pub open spec fn new(name: Seq<char>) -> RoomState {
        RoomState { name, first: 0, backlog: Seq::empty() }
    }

    /// A room keeps at most [`CAPACITY`] messages, and lets one go only when
    /// it is full.
    pub open spec fn wf(self) -> bool {
        &&& self.backlog.len() <= CAPACITY
        &&& self.first > 0 ==> self.backlog.len() == CAPACITY
    }

    /// How many messages have ever been posted; also the sequence number that
    /// the next message will get.
    pub open spec fn posted(self) -> nat {
        self.first + self.backlog.len()
    }

    /// The room after one more message: it is kept as the newest, and the
    /// oldest is let go if the room was full.
    pub open spec fn post(self, message: Seq<char>) -> RoomState {
        if self.backlog.len() < CAPACITY {
            RoomState { backlog: self.backlog.push(message), ..self }
        } else {
            RoomState {
                first: self.first + 1,
                backlog: self.backlog.skip(1).push(message),
                ..self
            }
        }
    }

    /// The room after a run of messages, posted in order.
    pub open spec fn post_all(self, messages: Seq<Seq<char>>) -> RoomState
        decreases messages.len(),
    {
        if messages.len() == 0 {
            self
        } else {
            self.post_all(messages.drop_last()).post(messages.last())
        }
    }

    /// The message with this sequence number, for a number that the room
    /// still keeps: one from `first` up to, not including, `posted()`.
    pub open spec fn message_at(self, number: nat) -> Seq<char>
        recommends
            self.first <= number < self.posted(),
    {
        self.backlog[number - self.first]
    }

    /// What a reader at `cursor` has yet to read, oldest first, for a reader
    /// that has not fallen behind: one from `first` up to `posted()`.
    pub open spec fn unread(self, cursor: nat) -> Seq<Seq<char>>
        recommends
            self.first <= cursor <= self.posted(),
    {
        self.backlog.skip(cursor - self.first)
    }

    /// Whether `history` is what has been posted to the room, from the first
    /// message on: it has as many messages as were posted, and every message
    /// that the room keeps stands in it at its sequence number.
    pub open spec fn holds(self, history: Seq<Seq<char>>) -> bool {
        &&& history.len() == self.posted()
        &&& forall|number: nat|
            self.first <= number < self.posted() ==> self.message_at(number)
                == #[trigger] history[number as int]
    }

    /// What a reader at `cursor` gets, and where it stands afterwards.
    ///
    /// Behind the oldest message kept: the number of messages missed, and the
    /// reader moves to the oldest kept. At a message kept: that message, and
    /// the reader moves past it. Otherwise nothing, and the reader stays.
    pub open spec fn receive(self, cursor: nat) -> (Option<Delivery>, nat) {
        if cursor < self.first {
            (Some(Delivery::Lagged((self.first - cursor) as nat)), self.first)
        } else if cursor < self.posted() {
            (Some(Delivery::Message(self.message_at(cursor))), cursor + 1)
        } else {
            (None, cursor)
        }
    }
}

/// Posting gives the message the next sequence number and disturbs nothing
/// that is kept: the room stays well formed and keeps its name, one more
/// message has been posted, the new message stands at the number that was
/// next, and every older message that is still kept is the one it was.
pub proof fn lemma_post_appends(room: RoomState, message: Seq<char>)
    requires
        room.wf(),
    ensures
        room.post(message).wf(),
        room.post(message).name == room.name,
        room.post(message).posted() == room.posted() + 1,
        room.post(message).first >= room.first,
        room.post(message).message_at(room.posted()) == message,
        forall|number: nat|
            room.post(message).first <= number < room.posted() ==> room.post(message).message_at(
                number,
            ) == room.message_at(number),
{
}

/// A run of posts keeps the room well formed and its name, and adds its
/// length to the number of messages posted.
pub proof fn lemma_post_all_appends(room: RoomState, messages: Seq<Seq<char>>)
    requires
        room.wf(),
    ensures
        room.post_all(messages).wf(),
        room.post_all(messages).name == room.name,
        room.post_all(messages).posted() == room.posted() + messages.len(),
        room.post_all(messages).first >= room.first,
        room.post_all(messages).first <= room.first + messages.len(),
    decreases messages.len(),
{
    if messages.len() > 0 {
        lemma_post_all_appends(room, messages.drop_last());
        lemma_post_appends(room.post_all(messages.drop_last()), messages.last());
    }
}

/// What is posted to a room reaches a reader in the order of posting.
///
/// A reader stands at the end of the feed, as one does that has just joined.
/// Then a run of messages is posted, no more of them than a room keeps. The
/// reader's `i`-th read from then on yields the `i`-th of these messages and
/// moves it on by one; after the last of them it gets nothing until more is
/// posted.
pub proof fn lemma_posts_arrive_in_order(room: RoomState, messages: Seq<Seq<char>>, i: int)
    requires
        room.wf(),
        messages.len() <= CAPACITY,
        0 <= i <= messages.len(),
    ensures
        i < messages.len() ==> room.post_all(messages).receive((room.posted() + i) as nat) == (
            Some(Delivery::Message(messages[i])),
            (room.posted() + i + 1) as nat,
        ),
        i == messages.len() ==> room.post_all(messages).receive((room.posted() + i) as nat) == (
            None::<Delivery>,
            (room.posted() + i) as nat,
        ),
    decreases messages.len(),
{
    lemma_post_all_appends(room, messages);
    if messages.len() > 0 {
        let before = room.post_all(messages.drop_last());
        lemma_post_all_appends(room, messages.drop_last());
        lemma_post_appends(before, messages.last());
        if i < messages.len() - 1 {
            lemma_posts_arrive_in_order(room, messages.drop_last(), i);
            assert(messages.drop_last()[i] == messages[i]);
            assert(before.message_at((room.posted() + i) as nat) == messages[i]);
        }
    }
}

/// A reader that fell behind is told so once, and then reads on.
///
/// For a reader behind the oldest message kept, the next read yields the
/// number of messages it missed, exactly, and the read after that yields the
/// oldest message kept: not a second notice, and not nothing.
pub proof fn lemma_lag_is_told_once(room: RoomState, cursor: nat)
    requires
        room.wf(),
        cursor < room.first,
    ensures
        room.receive(cursor) == (
            Some(Delivery::Lagged((room.first - cursor) as nat)),
            room.first,
        ),
        room.receive(room.receive(cursor).1) == (
            Some(Delivery::Message(room.message_at(room.first))),
            room.first + 1,
        ),
{
}

/// A reader that has not fallen behind is never told of a lag, and never
/// skips a message: it gets the message at its own place or nothing.
pub proof fn lemma_no_lag_no_notice(room: RoomState, cursor: nat)
    requires
        room.wf(),
        room.first <= cursor,
    ensures
        cursor < room.posted() ==> room.receive(cursor) == (
            Some(Delivery::Message(room.message_at(cursor))),
            cursor + 1,
        ),
        cursor >= room.posted() ==> room.receive(cursor) == (None::<Delivery>, cursor),
{
}

/// A message that is posted reaches every reader that has kept up, once, as
/// it is, and after everything posted before it.
///
/// For a reader that has not fallen behind and has fewer unread messages
/// than a room keeps, what it has yet to read after the post is what it had
/// yet to read, with the new message at the end. Nothing was taken from it,
/// so it has still not fallen behind.
pub proof fn lemma_post_reaches_every_reader(room: RoomState, cursor: nat, message: Seq<char>)
    requires
        room.wf(),
        room.first <= cursor <= room.posted(),
        room.unread(cursor).len() < CAPACITY,
    ensures
        room.post(message).first <= cursor <= room.post(message).posted(),
        room.post(message).unread(cursor) == room.unread(cursor).push(message),
{
    assert(room.post(message).unread(cursor) =~= room.unread(cursor).push(message));
}

/// What a reader has yet to read is what it will get, in that order: its
/// next reads yield the unread messages one by one, and then nothing.
pub proof fn lemma_unread_is_read_in_order(room: RoomState, cursor: nat, i: int)
    requires
        room.wf(),
        room.first <= cursor <= room.posted(),
        0 <= i <= room.unread(cursor).len(),
    ensures
        i < room.unread(cursor).len() ==> room.receive((cursor + i) as nat) == (
            Some(Delivery::Message(room.unread(cursor)[i])),
            (cursor + i + 1) as nat,
        ),
        i == room.unread(cursor).len() ==> room.receive((cursor + i) as nat) == (
            None::<Delivery>,
            (cursor + i) as nat,
        ),
{
}

/// All readers of a room read the same messages in the same order: of two
/// readers that have not fallen behind, the one further on has yet to read
/// what the other has yet to read, less the messages between them.
pub proof fn lemma_readers_agree(room: RoomState, behind: nat, ahead: nat)
    requires
        room.wf(),
        room.first <= behind <= ahead <= room.posted(),
    ensures
        room.unread(ahead) == room.unread(behind).skip(ahead - behind),
{
    assert(room.unread(ahead) =~= room.unread(behind).skip(ahead - behind));
}

/// What happens to a feed, one thing at a time: a message is posted, or the
/// reader that is being followed reads.
pub enum FeedStep {
    Post(Seq<char>),
    Read,
}

/// The messages that a run of steps posts, in order.
pub open spec fn posts_in(steps: Seq<FeedStep>) -> Seq<Seq<char>>
    decreases steps.len(),
{
    if steps.len() == 0 {
        Seq::empty()
    } else {
        match steps.last() {
            FeedStep::Post(message) => posts_in(steps.drop_last()).push(message),
            FeedStep::Read => posts_in(steps.drop_last()),
        }
    }
}

/// A run of posts and reads in any order: the room and the reader's place at
/// its end, and what the reads have given the reader, in order. A read that
/// finds nothing gives nothing.
pub open spec fn play(room: RoomState, cursor: nat, steps: Seq<FeedStep>) -> (
    RoomState,
    nat,
    Seq<Delivery>,
)
    decreases steps.len(),
{
    if steps.len() == 0 {
        (room, cursor, Seq::empty())
    } else {
        let (before, at, got) = play(room, cursor, steps.drop_last());
        match steps.last() {
            FeedStep::Post(message) => (before.post(message), at, got),
            FeedStep::Read => match before.receive(at).0 {
                Some(delivery) => (before, before.receive(at).1, got.push(delivery)),
                None => (before, at, got),
            },
        }
    }
}

/// How many messages a reader was given.
pub open spec fn given(got: Seq<Delivery>) -> nat
    decreases got.len(),
{
    if got.len() == 0 {
        0
    } else {
        given(got.drop_last()) + if got.last() is Message {
            1nat
        } else {
            0nat
        }
    }
}

/// How many messages a reader was told it had missed, all notices taken
/// together.
pub open spec fn missed(got: Seq<Delivery>) -> nat
    decreases got.len(),
{
    if got.len() == 0 {
        0
    } else {
        missed(got.drop_last()) + match got.last() {
            Delivery::Lagged(n) => n,
            _ => 0,
        }
    }
}

/// Whether what a reader was given follows the history of its room from the
/// place `from` on: each message given is the one at the place that the
/// reader had reached, a place further on than that of any message given
/// before, and each notice of a lag passes over one place at least.
pub open spec fn in_order(got: Seq<Delivery>, from: nat, history: Seq<Seq<char>>) -> bool
    decreases got.len(),
{
    if got.len() == 0 {
        true
    } else {
        let earlier = got.drop_last();
        let place = from + given(earlier) + missed(earlier);
        &&& in_order(earlier, from, history)
        &&& match got.last() {
            Delivery::Message(message) => place < history.len() && history[place as int] == message,
            Delivery::Lagged(n) => n >= 1,
            Delivery::Closed => false,
        }
    }
}

/// A room holds the history made of any messages in place of those it has
/// let go, followed by those it keeps.
pub proof fn lemma_room_holds(room: RoomState, lost: Seq<Seq<char>>)
    requires
        lost.len() == room.first,
    ensures
        room.holds(lost + room.backlog),
{
}

proof fn lemma_in_order_of_longer_history(
    got: Seq<Delivery>,
    from: nat,
    history: Seq<Seq<char>>,
    more: Seq<Seq<char>>,
)
    requires
        in_order(got, from, history),
    ensures
        in_order(got, from, history + more),
    decreases got.len(),
{
    if got.len() > 0 {
        lemma_in_order_of_longer_history(got.drop_last(), from, history, more);
    }
}

/// Every post is delivered once or counted in one notice, and what is
/// delivered comes in the order of posting.
///
/// Messages are posted to a room and one reader reads, in any order and
/// number. Then:
/// - the reader has moved on by the number of messages it was given plus the
///   number it was told it had missed, so a reader that has read up to the
///   feed's end has had each message posted since it joined either given to
///   it once or counted in exactly one notice;
/// - each notice counts one message at least;
/// - each message given is the one posted at the place that the reader had
///   reached: none comes twice, none that was posted before the reader's
///   place, and none out of order.
pub proof fn lemma_every_post_is_accounted_for(
    room: RoomState,
    history: Seq<Seq<char>>,
    cursor: nat,
    steps: Seq<FeedStep>,
)
    requires
        room.wf(),
        room.holds(history),
        cursor <= room.posted(),
    ensures
        ({
            let (end, at, got) = play(room, cursor, steps);
            &&& end.wf()
            &&& end.name == room.name
            &&& end.holds(history + posts_in(steps))
            &&& at <= end.posted()
            &&& at == cursor + given(got) + missed(got)
            &&& in_order(got, cursor, history + posts_in(steps))
            &&& cursor == room.posted() && at == end.posted() ==> given(got) + missed(got)
                == posts_in(steps).len()
        }),
    decreases steps.len(),
{
    if steps.len() > 0 {
        let (before, place, earlier) = play(room, cursor, steps.drop_last());
        let so_far = history + posts_in(steps.drop_last());
        lemma_every_post_is_accounted_for(room, history, cursor, steps.drop_last());
        match steps.last() {
            FeedStep::Post(message) => {
                lemma_post_appends(before, message);
                assert(history + posts_in(steps) =~= so_far.push(message));
                lemma_in_order_of_longer_history(earlier, cursor, so_far, seq![message]);
                assert(so_far + seq![message] =~= so_far.push(message));
                let end = before.post(message);
                assert forall|number: nat| end.first <= number < end.posted() implies end.message_at(
                    number,
                ) == #[trigger] so_far.push(message)[number as int] by {
                    if number < before.posted() {
                        assert(before.message_at(number) == so_far[number as int]);
                    }
                }
            },
            FeedStep::Read => {
                assert(history + posts_in(steps) =~= so_far);
                if let Some(delivery) = before.receive(place).0 {
                    let got = earlier.push(delivery);
                    assert(got.drop_last() =~= earlier);
                    if place >= before.first {
                        assert(before.message_at(place) == so_far[place as int]);
                    }
                }
            },
        }
    }
}

/// A reader that is never told of a lag is given every message, in the order
/// of posting.
///
/// If what a reader was given follows the history from a place on and holds
/// no notice, it is the run of messages that stand in the history from that
/// place on, none left out.
pub proof fn lemma_without_lag_nothing_is_lost(
    got: Seq<Delivery>,
    from: nat,
    history: Seq<Seq<char>>,
)
    requires
        in_order(got, from, history),
        missed(got) == 0,
    ensures
        given(got) == got.len(),
        got.len() > 0 ==> from + got.len() <= history.len(),
        forall|i: int|
            0 <= i < got.len() ==> #[trigger] got[i] == Delivery::Message(history[from + i]),
    decreases got.len(),
{
    if got.len() > 0 {
        let earlier = got.drop_last();
        lemma_without_lag_nothing_is_lost(earlier, from, history);
        assert forall|i: int| 0 <= i < got.len() implies #[trigger] got[i] == Delivery::Message(
            history[from + i],
        ) by {
            if i < earlier.len() {
                assert(got[i] == earlier[i]);
            }
        }
    }
}

/// A reader that its client keeps passes on all that it is given, under the
/// room's name: each message as a message of that room with the text as it
/// was posted, and each notice of a lag as words that name the number
/// missed, which is one at least.
pub proof fn lemma_kept_reader_passes_on(
    chat_name: Seq<char>,
    got: Seq<Delivery>,
    from: nat,
    history: Seq<Seq<char>>,
    i: int,
)
    requires
        in_order(got, from, history),
        0 <= i < got.len(),
    ensures
        match got[i] {
            Delivery::Message(message) => forward(true, chat_name, Some(got[i])) == Turn::Send(
                Event::Message { chat_name, message },
            ),
            Delivery::Lagged(n) => n >= 1 && forward(true, chat_name, Some(got[i])) == Turn::Send(
                Event::Error(dropped(n, chat_name)),
            ),
            Delivery::Closed => false,
        },
    decreases got.len(),
{
    if i < got.len() - 1 {
        lemma_kept_reader_passes_on(chat_name, got.drop_last(), from, history, i);
        assert(got.drop_last()[i] == got[i]);
    }
}

/// The words that tell a reader how many messages of a room it missed.
pub open spec fn dropped(missed: nat, chat_name: Seq<char>) -> Seq<char> {
    "Dropped "@ + decimal(missed) + " messages from "@ + chat_name + "."@
}

/// What a reader does next.
pub enum Turn {
    /// It sends this to its client and reads on.
    Send(Event),
    /// It waits until something is posted or the client's rooms change.
    Wait,
    /// It ends.
    Stop,
}

/// What a reader of the room called `chat_name` does with what the feed gave
/// it, `None` if the feed had nothing, given whether it is at this moment
/// the reader that its client keeps for that room.
///
/// A reader that the client does not keep ends, whatever the feed gave.
/// Otherwise it waits if the feed had nothing, passes a message on under
/// the room's name, tells of a lag in words, and ends when the feed has
/// ended.
pub open spec fn forward(kept: bool, chat_name: Seq<char>, delivery: Option<Delivery>) -> Turn {
    if !kept {
        Turn::Stop
    } else {
        match delivery {
            None => Turn::Wait,
            Some(Delivery::Message(message)) => Turn::Send(Event::Message { chat_name, message }),
            Some(Delivery::Lagged(missed)) => Turn::Send(Event::Error(dropped(missed, chat_name))),
            Some(Delivery::Closed) => Turn::Stop,
        }
    }
}

/// A room: its name and the last [`CAPACITY`] messages posted to it.
pub struct ChatRoom {
    name: String,
    first: u64,
    backlog: VecDeque<String>,
}

/// A reader's place in a room's feed: the sequence number of the message it
/// will read next.
#[derive(Debug, Clone, Copy, PartialEq, Eq)]
pub struct Receiver {
    next: u64,
}

/// What a reader gets from a feed.
#[derive(Debug, Clone, PartialEq, Eq)]
pub enum Received {
    /// The next message.
    Message(String),
    /// So many messages were let go before the reader came to them.
    Lagged(u64),
    /// The feed has ended: the room is gone.
    Closed,
}

impl View for Receiver {
    type V = nat;

    closed spec fn view(&self) -> nat {
        self.next as nat
    }
}

impl View for Received {
    type V = Delivery;

    open spec fn view(&self) -> Delivery {
        match *self {
            Received::Message(message) => Delivery::Message(message@),
            Received::Lagged(n) => Delivery::Lagged(n as nat),
            Received::Closed => Delivery::Closed,
        }
    }
}

/// What a reader got from a feed, if anything, as mathematics.
pub open spec fn delivered(received: Option<Received>) -> Option<Delivery> {
    match received {
        Some(received) => Some(received@),
        None => None,
    }
}

/// What a reader does next.
#[derive(Debug, Clone, PartialEq, Eq)]
pub enum Forward {
    /// Send this to the client, then read on.
    Send(ServerAction),
    /// Wait until something is posted or the client's rooms change, then
    /// read again.
    Wait,
    /// End.
    Stop,
}

impl View for Forward {
    type V = Turn;

    open spec fn view(&self) -> Turn {
        match *self {
            Forward::Send(action) => Turn::Send(action@),
            Forward::Wait => Turn::Wait,
            Forward::Stop => Turn::Stop,
        }
    }
}

impl View for ChatRoom {
    type V = RoomState;

    closed spec fn view(&self) -> RoomState {
        RoomState {
            name: self.name@,
            first: self.first as nat,
            backlog: Seq::new(self.backlog@.len(), |i: int| self.backlog@[i]@),
        }
    }
}

impl ChatRoom {
    /// Holds of every room at all times: it is well formed, and its sequence
    /// numbers fit the machine.
    #[verifier::type_invariant]
    pub open spec fn inv(self) -> bool {
        &&& self@.wf()
        &&& self@.posted() <= u64::MAX
    }

    /// A room of this name to which nothing has been posted.
    pub fn new(name: &str) -> (room: ChatRoom)
        ensures
            room@ == RoomState::new(name@),
    {
        let room = ChatRoom { name: name.to_owned(), first: 0, backlog: VecDeque::new() };
        assert(room@.backlog =~= Seq::<Seq<char>>::empty());
        room
    }

    /// The room's name.
    pub fn name(&self) -> (name: &str)
        ensures
            name@ == self@.name,
    {
        self.name.as_str()
    }

    /// Whether the room has handed out every sequence number there is, so
    /// that it can take no further message.
    pub fn is_exhausted(&self) -> (exhausted: bool)
        ensures
            exhausted == (self@.posted() >= u64::MAX),
    {
        proof {
            use_type_invariant(self);
        }
        self.backlog.len() as u64 >= u64::MAX - self.first
    }

    /// A reader that will see what is posted from now on, and nothing that
    /// was posted before.
    pub fn join(&self) -> (receiver: Receiver)
        ensures
            receiver@ == self@.posted(),
    {
        proof {
            use_type_invariant(self);
        }
        Receiver { next: self.first + self.backlog.len() as u64 }
    }

    /// Posts a message: every reader that has joined gets it, once and as it
    /// is, after what was posted before it. For each reader that has kept
    /// up, what it has yet to read is what it had, with the message at the
    /// end.
    pub fn post(&mut self, message: String)
        requires
            old(self)@.posted() < u64::MAX,
        ensures
            final(self)@ == old(self)@.post(message@),
            forall|cursor: nat|
                old(self)@.first <= cursor <= old(self)@.posted() && old(self)@.unread(cursor).len()
                    < CAPACITY ==> #[trigger] final(self)@.unread(cursor) == old(self)@.unread(
                    cursor,
                ).push(message@),
    {
        proof {
            use_type_invariant(&*self);
            assert forall|cursor: nat|
                self@.first <= cursor <= self@.posted() && self@.unread(cursor).len()
                    < CAPACITY implies #[trigger] self@.post(message@).unread(cursor)
                == self@.unread(cursor).push(message@) by {
                lemma_post_reaches_every_reader(self@, cursor, message@);
            }
        }
        let mut taken = ChatRoom { name: String::new(), first: 0, backlog: VecDeque::new() };
        std::mem::swap(self, &mut taken);
        let ChatRoom { name, mut first, mut backlog } = taken;
        if backlog.len() >= CAPACITY {
            backlog.pop_front();
            first = first + 1;
        }
        backlog.push_back(message);
        *self = ChatRoom { name, first, backlog };
        assert(self@.backlog =~= old(self)@.post(message@).backlog);
    }

    /// Hands the reader what comes next in the feed, if anything does, and
    /// moves the reader on: see [`RoomState::receive`]. `None` means that the
    /// reader has seen everything posted so far.
    pub fn receive(&self, receiver: &mut Receiver) -> (received: Option<Received>)
        ensures
            delivered(received) == self@.receive(old(receiver)@).0,
            final(receiver)@ == self@.receive(old(receiver)@).1,
    {
        proof {
            use_type_invariant(self);
        }
        if receiver.next < self.first {
            let missed = self.first - receiver.next;
            receiver.next = self.first;
            Some(Received::Lagged(missed))
        } else if receiver.next - self.first < self.backlog.len() as u64 {
            let at = (receiver.next - self.first) as usize;
            let message = self.backlog[at].clone();
            receiver.next = receiver.next + 1;
            Some(Received::Message(message))
        } else {
            None
        }
    }
}

/// Tells a reader's client how many messages of a room it missed.
pub fn dropped_report(missed: u64, chat_name: &str) -> (report: ServerAction)
    ensures
        report@ == Event::Error(dropped(missed as nat, chat_name@)),
{
    let mut text = "Dropped ".to_owned();
    text.append(decimal_text(missed).as_str());
    text.append(" messages from ");
    text.append(chat_name);
    text.append(".");
    ServerAction::Error(text)
}

/// One turn of the reader with this number that drains the room called
/// `chat_name` into a client: what to do with what the feed gave, `None` if
/// it had nothing. See [`forward`].
///
/// The client is looked at here, after the feed has been read. Only the
/// reader that the client keeps for the room passes anything on. What
/// arrives for a room that the client has left in the meantime is not passed
/// on, and the reader of a stay that is over ends, also where the client has
/// joined the room again since.
pub fn subscribe(chat_name: &str, reader: u64, received: Option<Received>, client: &Client) -> (turn:
    Forward)
    ensures
        turn@ == forward(
            client@.rooms.contains_key(chat_name@) && client@.rooms[chat_name@] == reader as nat,
            chat_name@,
            delivered(received),
        ),
{
    if !client.has_reader(chat_name, reader) {
        return Forward::Stop;
    }
    match received {
        None => Forward::Wait,
        Some(Received::Message(message)) => Forward::Send(
            ServerAction::Message { chat_name: chat_name.to_owned(), message },
        ),
        Some(Received::Lagged(missed)) => Forward::Send(dropped_report(missed, chat_name)),
        Some(Received::Closed) => Forward::Stop,
    }
}

/// Whether a reader reads on after it has tried to send something to its
/// client: it does if the client's socket took what was sent, and it ends
/// if the write failed.
pub fn reads_on(written: bool) -> (on: bool)
    ensures
        on == written,
{
    written
}

} // verus!
