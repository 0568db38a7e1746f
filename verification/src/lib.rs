//! A text-chat relay: the messages that clients and server exchange, the
//! rooms with their bounded feeds, the registry of rooms, the state of one
//! connected client, and the reading of a client's typed lines.
//!
//! Every type has a mathematical view, and every function says over those
//! views what it returns and what it changes. Nothing here waits, locks or
//! touches a socket: a server built on this library guards a [`ChatMap`] and
//! each [`Client`] with a lock of its own and calls in while it holds them.

use vstd::prelude::*;

pub mod chat_map;
pub mod chat_room;
pub mod client;
pub mod connection;
pub mod text;

pub use chat_map::ChatMap;
pub use chat_room::ChatRoom;
pub use connection::Client;

verus! {

/// What a client asks of the server.
#[derive(Debug, Clone, PartialEq, Eq)]
pub enum ClientAction {
    Join { chat_name: String },
    Leave { chat_name: String },
    Post { chat_name: String, message: String },
}

/// What the server tells a client.
#[derive(Debug, Clone, PartialEq, Eq)]
pub enum ServerAction {
    Message { chat_name: String, message: String },
    Error(String),
}

/// A [`ClientAction`] as mathematics: the same variants over sequences of
/// characters.
pub enum Command {
    Join { chat_name: Seq<char> },
    Leave { chat_name: Seq<char> },
    Post { chat_name: Seq<char>, message: Seq<char> },
}

/// A [`ServerAction`] as mathematics.
pub enum Event {
    Message { chat_name: Seq<char>, message: Seq<char> },
    Error(Seq<char>),
}

impl View for ClientAction {
    type V = Command;

    open spec fn view(&self) -> Command {
        match *self {
            ClientAction::Join { chat_name } => Command::Join { chat_name: chat_name@ },
            ClientAction::Leave { chat_name } => Command::Leave { chat_name: chat_name@ },
            ClientAction::Post { chat_name, message } => Command::Post {
                chat_name: chat_name@,
                message: message@,
            },
        }
    }
}

impl View for ServerAction {
    type V = Event;

    open spec fn view(&self) -> Event {
        match *self {
            ServerAction::Message { chat_name, message } => Event::Message {
                chat_name: chat_name@,
                message: message@,
            },
            ServerAction::Error(text) => Event::Error(text@),
        }
    }
}

} // verus!
