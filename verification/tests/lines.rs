use chat::client::{action_for, get_action, is_whitespace, parse_input};
use chat::text::{decimal_text, same_text};
use chat::ClientAction;

fn join(name: &str) -> Option<ClientAction> {
    Some(ClientAction::Join { chat_name: String::from(name) })
}

fn leave(name: &str) -> Option<ClientAction> {
    Some(ClientAction::Leave { chat_name: String::from(name) })
}

fn post(name: &str, message: &str) -> Option<ClientAction> {
    Some(ClientAction::Post { chat_name: String::from(name), message: String::from(message) })
}

#[test]
fn white_space_is_what_the_standard_library_calls_white_space() {
    let mut code: u32 = 0;
    while code <= 0x10FFFF {
        if let Some(c) = char::from_u32(code) {
            assert_eq!(is_whitespace(c), c.is_whitespace(), "U+{:04X}", code);
        }
        code += 1;
    }
}

#[test]
fn decimal_text_values() {
    assert_eq!(decimal_text(0), "0");
    assert_eq!(decimal_text(7), "7");
    assert_eq!(decimal_text(10), "10");
    assert_eq!(decimal_text(1000), "1000");
    assert_eq!(decimal_text(1234567890), "1234567890");
    assert_eq!(decimal_text(u64::MAX), "18446744073709551615");
}

#[test]
fn same_text_compares_characters() {
    assert!(same_text("", ""));
    assert!(same_text("lobby", "lobby"));
    assert!(!same_text("lobby", "lobbx"));
    assert!(!same_text("lobby", "lobb"));
    assert!(!same_text("lobby", "Lobby"));
    assert!(same_text("caf\u{e9}", "caf\u{e9}"));
    assert!(!same_text("cafe\u{301}", "caf\u{e9}"));
}

#[test]
fn parse_input_splits_at_the_first_white_space() {
    assert_eq!(parse_input("JOIN lobby"), Some(("JOIN", "lobby")));
    assert_eq!(parse_input("JOIN\tlobby"), Some(("JOIN", "lobby")));
    assert_eq!(parse_input("post lobby hello world"), Some(("post", "lobby hello world")));
    assert_eq!(parse_input("a  b"), Some(("a", " b")));
    assert_eq!(parse_input("a "), Some(("a", "")));
}

#[test]
fn parse_input_of_one_word() {
    assert_eq!(parse_input("JOIN"), Some(("JOIN", "")));
    assert_eq!(parse_input("x"), Some(("x", "")));
    assert_eq!(parse_input("caf\u{e9}"), Some(("caf\u{e9}", "")));
}

#[test]
fn parse_input_of_nothing() {
    assert_eq!(parse_input(""), None);
    assert_eq!(parse_input(" "), None);
    assert_eq!(parse_input(" \t \u{3000}"), None);
}

#[test]
fn parse_input_takes_words_of_any_characters() {
    assert_eq!(parse_input("caf\u{e9} au lait"), Some(("caf\u{e9}", "au lait")));
    assert_eq!(parse_input("\u{65e5}\u{672c} x"), Some(("\u{65e5}\u{672c}", "x")));
    assert_eq!(parse_input("\u{1f600} y z"), Some(("\u{1f600}", "y z")));
}

#[test]
fn parse_input_passes_over_white_space_in_front() {
    assert_eq!(parse_input(" join x"), Some(("join", "x")));
    assert_eq!(parse_input("  ab cd"), Some(("ab", "cd")));
    assert_eq!(parse_input(" word"), Some(("word", "")));
    assert_eq!(parse_input("\t\u{a0}ab cd"), Some(("ab", "cd")));
    assert_eq!(parse_input("\u{3000}\u{e9} x"), Some(("\u{e9}", "x")));
    assert_eq!(parse_input(" a\u{e9} x  "), Some(("a\u{e9}", "x  ")));
}

#[test]
fn parse_input_splits_at_white_space_of_any_width() {
    assert_eq!(parse_input("join\u{a0}x"), Some(("join", "x")));
    assert_eq!(parse_input("join\u{3000}x y"), Some(("join", "x y")));
    assert_eq!(parse_input("join\u{2028}"), Some(("join", "")));
}

#[test]
fn get_action_reads_the_three_commands() {
    assert_eq!(get_action("JOIN lobby"), join("lobby"));
    assert_eq!(get_action("LEAVE lobby"), leave("lobby"));
    assert_eq!(get_action("POST lobby hello world"), post("lobby", "hello world"));
}

#[test]
fn get_action_takes_the_command_word_in_any_case() {
    assert_eq!(get_action("join lobby"), join("lobby"));
    assert_eq!(get_action("Join lobby"), join("lobby"));
    assert_eq!(get_action("lEaVe lobby"), leave("lobby"));
    assert_eq!(get_action("post lobby hi"), post("lobby", "hi"));
    assert_eq!(get_action("po\u{17f}t lobby hi"), post("lobby", "hi"));
    assert_eq!(get_action("po\u{fb06} lobby hi"), post("lobby", "hi"));
}

#[test]
fn get_action_keeps_the_case_of_names_and_messages() {
    assert_eq!(get_action("join Lobby"), join("Lobby"));
    assert_eq!(get_action("post Lobby Hi There"), post("Lobby", "Hi There"));
}

#[test]
fn get_action_takes_the_whole_rest_as_the_rooms_name() {
    assert_eq!(get_action("JOIN"), join(""));
    assert_eq!(get_action("JOIN "), join(""));
    assert_eq!(get_action("JOIN the lobby"), join("the lobby"));
    assert_eq!(get_action("LEAVE  lobby"), leave(" lobby"));
}

#[test]
fn get_action_rejects_a_post_without_a_message() {
    assert_eq!(get_action("POST"), None);
    assert_eq!(get_action("POST "), None);
    assert_eq!(get_action("POST lobby"), None);
    assert_eq!(get_action("POST lobby "), None);
}

#[test]
fn get_action_rejects_what_is_no_command() {
    assert_eq!(get_action(""), None);
    assert_eq!(get_action("   "), None);
    assert_eq!(get_action("shout lobby"), None);
    assert_eq!(get_action("joinlobby"), None);
    assert_eq!(get_action("join-lobby now"), None);
}

#[test]
fn get_action_passes_over_white_space_in_front() {
    assert_eq!(get_action(" join lobby"), join("lobby"));
    assert_eq!(get_action("\t POST lobby hi"), post("lobby", "hi"));
    assert_eq!(get_action("join\u{a0}lobby"), join("lobby"));
}

#[test]
fn get_action_takes_a_whole_word_as_the_room_of_a_post() {
    assert_eq!(get_action("POST  lobby hi"), post("lobby", "hi"));
    assert_eq!(get_action("POST \t room msg"), post("room", "msg"));
    assert_eq!(get_action("POST lobby  two spaces"), post("lobby", " two spaces"));
    assert_eq!(get_action("POST lobby hi "), post("lobby", "hi "));
    assert_eq!(get_action("POST   "), None);
    assert_eq!(get_action("POST   lobby"), None);
}

#[test]
fn action_for_wants_the_word_in_capitals() {
    assert_eq!(action_for("JOIN", "lobby"), join("lobby"));
    assert_eq!(action_for("LEAVE", "lobby"), leave("lobby"));
    assert_eq!(action_for("POST", "lobby hi"), post("lobby", "hi"));
    assert_eq!(action_for("POST", " lobby hi"), post("lobby", "hi"));
    assert_eq!(action_for("POST", "lobby"), None);
    assert_eq!(action_for("join", "lobby"), None);
    assert_eq!(action_for("", "lobby"), None);
    assert_eq!(action_for("JOINED", "lobby"), None);
}
