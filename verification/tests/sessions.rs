use chat::chat_room::{reads_on, subscribe, Forward, Received};
use chat::connection::{accepts, handle, not_in_room_report, serve, Client, Input, Reply};
use chat::{ChatMap, ClientAction, ServerAction};

fn join(name: &str) -> ClientAction {
    ClientAction::Join { chat_name: String::from(name) }
}

fn leave(name: &str) -> ClientAction {
    ClientAction::Leave { chat_name: String::from(name) }
}

fn post(name: &str, message: &str) -> ClientAction {
    ClientAction::Post { chat_name: String::from(name), message: String::from(message) }
}

fn not_in(name: &str) -> Reply {
    Reply::Report(ServerAction::Error(format!("You are not in {}", name)))
}

#[test]
fn new_client_is_in_no_room() {
    let client = Client::new();
    assert!(!client.is_in_room("lobby"));
    assert!(!client.is_in_room(""));
}

#[test]
fn not_in_room_report_words() {
    assert_eq!(
        not_in_room_report("void"),
        ServerAction::Error(String::from("You are not in void"))
    );
}

#[test]
fn message_posted_by_one_client_reaches_another() {
    let mut chats = ChatMap::new();
    let mut a = Client::new();
    let mut b = Client::new();
    let (room, mut feed, reader) = match handle(&mut a, &mut chats, join("lobby")) {
        Reply::Joined { room, receiver, reader, .. } => (room, receiver, reader),
        other => panic!("unexpected reply {:?}", other),
    };
    let (mut feed_of_b, reader_of_b) = match handle(&mut b, &mut chats, join("lobby")) {
        Reply::Joined { receiver, reader, .. } => (receiver, reader),
        other => panic!("unexpected reply {:?}", other),
    };
    assert_eq!(handle(&mut b, &mut chats, post("lobby", "hi")), Reply::Done);
    let received = chats.room(room).receive(&mut feed);
    assert_eq!(
        subscribe("lobby", reader, received, &a),
        Forward::Send(ServerAction::Message {
            chat_name: String::from("lobby"),
            message: String::from("hi"),
        })
    );
    let received_by_b = chats.room(room).receive(&mut feed_of_b);
    assert_eq!(
        subscribe("lobby", reader_of_b, received_by_b, &b),
        Forward::Send(ServerAction::Message {
            chat_name: String::from("lobby"),
            message: String::from("hi"),
        })
    );
    assert_eq!(
        subscribe("lobby", reader_of_b, chats.room(room).receive(&mut feed_of_b), &b),
        Forward::Wait
    );
    let nothing = chats.room(room).receive(&mut feed);
    assert_eq!(nothing, None);
    assert_eq!(subscribe("lobby", reader, nothing, &a), Forward::Wait);
}

#[test]
fn post_to_a_room_not_joined_is_reported() {
    let mut chats = ChatMap::new();
    let mut a = Client::new();
    assert_eq!(handle(&mut a, &mut chats, post("void", "x")), not_in("void"));
    assert_eq!(chats.len(), 0);
    assert!(!a.is_in_room("void"));
}

#[test]
fn post_to_a_room_of_others_is_reported_and_not_delivered() {
    let mut chats = ChatMap::new();
    let mut a = Client::new();
    let mut b = Client::new();
    let (room, mut feed, reader) = match handle(&mut a, &mut chats, join("lobby")) {
        Reply::Joined { room, receiver, reader, .. } => (room, receiver, reader),
        other => panic!("unexpected reply {:?}", other),
    };
    assert_eq!(reader, 0);
    assert_eq!(handle(&mut b, &mut chats, post("lobby", "x")), not_in("lobby"));
    assert_eq!(chats.room(room).receive(&mut feed), None);
}

#[test]
fn second_leave_is_reported() {
    let mut chats = ChatMap::new();
    let mut a = Client::new();
    assert!(matches!(handle(&mut a, &mut chats, join("lobby")), Reply::Joined { .. }));
    assert!(a.is_in_room("lobby"));
    assert_eq!(handle(&mut a, &mut chats, leave("lobby")), Reply::Done);
    assert!(!a.is_in_room("lobby"));
    assert_eq!(handle(&mut a, &mut chats, leave("lobby")), not_in("lobby"));
    assert!(!a.is_in_room("lobby"));
}

#[test]
fn second_join_starts_no_second_reader() {
    let mut chats = ChatMap::new();
    let mut a = Client::new();
    let first = handle(&mut a, &mut chats, join("lobby"));
    assert!(matches!(first, Reply::Joined { room: 0, .. }));
    assert_eq!(handle(&mut a, &mut chats, join("lobby")), Reply::Done);
    assert_eq!(handle(&mut a, &mut chats, join("lobby")), Reply::Done);
    assert!(a.is_in_room("lobby"));
    assert_eq!(chats.len(), 1);
}

#[test]
fn joining_again_after_leaving_starts_a_reader_at_the_feeds_end() {
    let mut chats = ChatMap::new();
    let mut a = Client::new();
    let mut b = Client::new();
    handle(&mut b, &mut chats, join("lobby"));
    handle(&mut a, &mut chats, join("lobby"));
    handle(&mut a, &mut chats, leave("lobby"));
    handle(&mut b, &mut chats, post("lobby", "missed"));
    let (room, mut feed, reader) = match handle(&mut a, &mut chats, join("lobby")) {
        Reply::Joined { room, receiver, reader, .. } => (room, receiver, reader),
        other => panic!("unexpected reply {:?}", other),
    };
    assert_eq!(room, 0);
    assert_eq!(reader, 1);
    assert_eq!(chats.room(room).receive(&mut feed), None);
    handle(&mut b, &mut chats, post("lobby", "seen"));
    assert_eq!(
        chats.room(room).receive(&mut feed),
        Some(Received::Message(String::from("seen")))
    );
}

#[test]
fn leave_of_a_room_not_joined_leaves_the_other_rooms_alone() {
    let mut chats = ChatMap::new();
    let mut a = Client::new();
    let (lobby, mut feed, reader) = match handle(&mut a, &mut chats, join("lobby")) {
        Reply::Joined { room, receiver, reader, .. } => (room, receiver, reader),
        other => panic!("unexpected reply {:?}", other),
    };
    handle(&mut a, &mut chats, join("attic"));
    assert_eq!(handle(&mut a, &mut chats, leave("cellar")), not_in("cellar"));
    assert!(a.is_in_room("lobby"));
    assert!(a.is_in_room("attic"));
    assert_eq!(chats.len(), 2);
    assert_eq!(handle(&mut a, &mut chats, post("lobby", "still here")), Reply::Done);
    let received = chats.room(lobby).receive(&mut feed);
    assert_eq!(
        subscribe("lobby", reader, received, &a),
        Forward::Send(ServerAction::Message {
            chat_name: String::from("lobby"),
            message: String::from("still here"),
        })
    );
}

#[test]
fn leave_takes_the_client_out_of_that_room_only() {
    let mut chats = ChatMap::new();
    let mut a = Client::new();
    handle(&mut a, &mut chats, join("lobby"));
    handle(&mut a, &mut chats, join("attic"));
    handle(&mut a, &mut chats, join("cellar"));
    assert_eq!(handle(&mut a, &mut chats, leave("attic")), Reply::Done);
    assert!(a.is_in_room("lobby"));
    assert!(!a.is_in_room("attic"));
    assert!(a.is_in_room("cellar"));
}

#[test]
fn message_in_flight_is_not_delivered_after_leave() {
    let mut chats = ChatMap::new();
    let mut a = Client::new();
    let mut b = Client::new();
    let (room, mut feed, reader) = match handle(&mut a, &mut chats, join("lobby")) {
        Reply::Joined { room, receiver, reader, .. } => (room, receiver, reader),
        other => panic!("unexpected reply {:?}", other),
    };
    handle(&mut b, &mut chats, join("lobby"));
    handle(&mut b, &mut chats, post("lobby", "in flight"));
    let received = chats.room(room).receive(&mut feed);
    assert_eq!(received, Some(Received::Message(String::from("in flight"))));
    assert_eq!(handle(&mut a, &mut chats, leave("lobby")), Reply::Done);
    assert_eq!(subscribe("lobby", reader, received, &a), Forward::Stop);
}

#[test]
fn after_leaving_and_joining_again_only_the_new_reader_sends() {
    let mut chats = ChatMap::new();
    let mut a = Client::new();
    let (room, mut old_feed, old_reader) = match handle(&mut a, &mut chats, join("lobby")) {
        Reply::Joined { room, receiver, reader, .. } => (room, receiver, reader),
        other => panic!("unexpected reply {:?}", other),
    };
    assert_eq!(handle(&mut a, &mut chats, leave("lobby")), Reply::Done);
    let (same_room, mut new_feed, new_reader) = match handle(&mut a, &mut chats, join("lobby")) {
        Reply::Joined { room, receiver, reader, .. } => (room, receiver, reader),
        other => panic!("unexpected reply {:?}", other),
    };
    assert_eq!(same_room, room);
    assert_eq!((old_reader, new_reader), (0, 1));
    assert!(!a.has_reader("lobby", old_reader));
    assert!(a.has_reader("lobby", new_reader));
    assert_eq!(handle(&mut a, &mut chats, post("lobby", "once")), Reply::Done);
    let for_the_old = chats.room(room).receive(&mut old_feed);
    assert_eq!(for_the_old, Some(Received::Message(String::from("once"))));
    assert_eq!(subscribe("lobby", old_reader, for_the_old, &a), Forward::Stop);
    let for_the_new = chats.room(room).receive(&mut new_feed);
    assert_eq!(
        subscribe("lobby", new_reader, for_the_new, &a),
        Forward::Send(ServerAction::Message {
            chat_name: String::from("lobby"),
            message: String::from("once"),
        })
    );
    assert_eq!(
        subscribe("lobby", new_reader, chats.room(room).receive(&mut new_feed), &a),
        Forward::Wait
    );
}

#[test]
fn readers_of_one_client_have_numbers_of_their_own() {
    let mut chats = ChatMap::new();
    let mut a = Client::new();
    let mut numbers = Vec::new();
    for name in ["lobby", "attic", "lobby", "cellar"] {
        if let Reply::Joined { reader, .. } = handle(&mut a, &mut chats, join(name)) {
            numbers.push(reader);
        }
        handle(&mut a, &mut chats, leave("attic"));
    }
    if let Reply::Joined { reader, .. } = handle(&mut a, &mut chats, join("attic")) {
        numbers.push(reader);
    }
    assert_eq!(numbers, vec![0, 1, 2, 3]);
    assert!(a.has_reader("lobby", 0));
    assert!(!a.has_reader("attic", 1));
    assert!(a.has_reader("cellar", 2));
    assert!(a.has_reader("attic", 3));
    assert!(!a.has_reader("lobby", 3));
}

#[test]
fn waiting_reader_stops_after_leave() {
    let mut chats = ChatMap::new();
    let mut a = Client::new();
    let (room, mut feed, reader) = match handle(&mut a, &mut chats, join("lobby")) {
        Reply::Joined { room, receiver, reader, .. } => (room, receiver, reader),
        other => panic!("unexpected reply {:?}", other),
    };
    assert_eq!(subscribe("lobby", reader, chats.room(room).receive(&mut feed), &a), Forward::Wait);
    assert_eq!(handle(&mut a, &mut chats, leave("lobby")), Reply::Done);
    assert_eq!(subscribe("lobby", reader, chats.room(room).receive(&mut feed), &a), Forward::Stop);
}

#[test]
fn clear_takes_the_client_out_of_every_room() {
    let mut chats = ChatMap::new();
    let mut a = Client::new();
    handle(&mut a, &mut chats, join("lobby"));
    handle(&mut a, &mut chats, join("attic"));
    a.clear();
    assert!(!a.is_in_room("lobby"));
    assert!(!a.is_in_room("attic"));
    assert!(!a.has_reader("lobby", 0));
    assert!(!a.has_reader("attic", 1));
    assert_eq!(
        subscribe("lobby", 0, Some(Received::Message(String::from("late"))), &a),
        Forward::Stop
    );
    assert_eq!(subscribe("lobby", 0, None, &a), Forward::Stop);
    assert_eq!(subscribe("attic", 1, None, &a), Forward::Stop);
    assert_eq!(handle(&mut a, &mut chats, post("lobby", "x")), not_in("lobby"));
    assert_eq!(chats.len(), 2);
}

#[test]
fn join_reports_the_rooms_name_and_the_feeds_end() {
    let mut chats = ChatMap::new();
    let mut a = Client::new();
    let mut b = Client::new();
    handle(&mut b, &mut chats, join("lobby"));
    handle(&mut b, &mut chats, post("lobby", "one"));
    handle(&mut b, &mut chats, post("lobby", "two"));
    let expected = chats.room(0).join();
    assert_eq!(
        handle(&mut a, &mut chats, join("lobby")),
        Reply::Joined { chat_name: String::from("lobby"), room: 0, receiver: expected, reader: 0 }
    );
}

#[test]
fn every_request_is_accepted_while_rooms_can_count() {
    let mut chats = ChatMap::new();
    let mut a = Client::new();
    assert!(accepts(&a, &chats, &join("lobby")));
    assert!(accepts(&a, &chats, &post("lobby", "x")));
    assert!(accepts(&a, &chats, &leave("lobby")));
    handle(&mut a, &mut chats, join("lobby"));
    assert!(accepts(&a, &chats, &post("lobby", "x")));
    handle(&mut a, &mut chats, post("lobby", "x"));
    assert!(accepts(&a, &chats, &post("lobby", "y")));
    assert!(accepts(&a, &chats, &post("attic", "y")));
}

#[test]
fn serve_handles_a_request_like_handle() {
    let mut chats = ChatMap::new();
    let mut a = Client::new();
    assert!(matches!(
        serve(&mut a, &mut chats, Input::Request(join("lobby"))),
        Reply::Joined { room: 0, reader: 0, .. }
    ));
    assert_eq!(serve(&mut a, &mut chats, Input::Request(post("lobby", "x"))), Reply::Done);
    assert_eq!(serve(&mut a, &mut chats, Input::Request(post("attic", "x"))), not_in("attic"));
    assert_eq!(serve(&mut a, &mut chats, Input::Request(leave("lobby"))), Reply::Done);
    assert!(!a.is_in_room("lobby"));
}

#[test]
fn serve_closes_on_what_is_no_request_and_ends_the_readers() {
    for ending in [Input::Malformed, Input::End, Input::WriteFailed] {
        let mut chats = ChatMap::new();
        let mut a = Client::new();
        serve(&mut a, &mut chats, Input::Request(join("lobby")));
        serve(&mut a, &mut chats, Input::Request(join("attic")));
        assert_eq!(serve(&mut a, &mut chats, ending), Reply::Close);
        assert!(!a.is_in_room("lobby"));
        assert!(!a.is_in_room("attic"));
        assert_eq!(subscribe("lobby", 0, None, &a), Forward::Stop);
        assert_eq!(
            subscribe("attic", 1, Some(Received::Message(String::from("late"))), &a),
            Forward::Stop
        );
        assert_eq!(chats.len(), 2);
    }
}

#[test]
fn a_failed_write_ends_the_reader() {
    assert!(reads_on(true));
    assert!(!reads_on(false));
}

#[test]
fn join_reports_the_rooms_handle() {
    let mut chats = ChatMap::new();
    let mut a = Client::new();
    let mut b = Client::new();
    assert!(matches!(handle(&mut a, &mut chats, join("lobby")), Reply::Joined { room: 0, .. }));
    assert!(matches!(handle(&mut a, &mut chats, join("attic")), Reply::Joined { room: 1, .. }));
    assert!(matches!(handle(&mut b, &mut chats, join("attic")), Reply::Joined { room: 1, .. }));
    assert!(matches!(handle(&mut b, &mut chats, join("lobby")), Reply::Joined { room: 0, .. }));
}
