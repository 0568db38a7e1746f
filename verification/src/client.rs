//! Reading what a user types: one line, one request.
//!
//! A line is a command word, one white-space character, and the rest:
//! `JOIN room`, `LEAVE room`, `POST room text`. The command word may be
//! written in capitals or not, and white space may stand in front of it. A
//! line that is none of these yields no request.

use crate::text::same_text;
use crate::{ClientAction, Command};
use vstd::prelude::*;
use vstd::string::StrSliceExecFns;

verus! {

/// Whether a character is white space, as Unicode's property `White_Space`
/// has it.
pub open spec fn is_white_space(c: char) -> bool {
    let code = c as u32;
    ||| 0x09 <= code <= 0x0D
    ||| code == 0x20
    ||| code == 0x85
    ||| code == 0xA0
    ||| code == 0x1680
    ||| 0x2000 <= code <= 0x200A
    ||| code == 0x2028
    ||| code == 0x2029
    ||| code == 0x202F
    ||| code == 0x205F
    ||| code == 0x3000
}

/// How many white-space characters a text begins with.
pub open spec fn white_space_len(text: Seq<char>) -> nat
    decreases text.len(),
{
    if text.len() > 0 && is_white_space(text[0]) {
        1 + white_space_len(text.skip(1))
    } else {
        0
    }
}

/// A text without the white space that it begins with.
pub open spec fn skip_white_space(text: Seq<char>) -> Seq<char> {
    text.skip(white_space_len(text) as int)
}

/// How many characters stand before the first white space of a text: the
/// length of the word that it begins with.
pub open spec fn word_len(text: Seq<char>) -> nat
    decreases text.len(),
{
    if text.len() == 0 || is_white_space(text[0]) {
        0
    } else {
        1 + word_len(text.skip(1))
    }
}

/// A line split into its first word and what follows it.
///
/// White space in front of the word is passed over. A line of nothing but
/// white space has no word. Otherwise the word runs up to the next
/// white-space character or to the line's end, that one character is passed
/// over, and the rest is everything after it, as it stands.
pub open spec fn split_line(line: Seq<char>) -> Option<(Seq<char>, Seq<char>)> {
    let trimmed = skip_white_space(line);
    let word = word_len(trimmed) as int;
    if trimmed.len() == 0 {
        None
    } else if word == trimmed.len() {
        Some((trimmed, Seq::empty()))
    } else {
        Some((trimmed.take(word), trimmed.skip(word + 1)))
    }
}

/// A text in capitals: what `str::to_uppercase` makes of it, which goes by
/// Unicode's rules and not only by the letters `a` to `z`.
pub uninterp spec fn uppercase(text: Seq<char>) -> Seq<char>;

/// The request that a command word, in capitals, and the rest of its line
/// stand for.
///
/// `JOIN` and `LEAVE` take the whole rest as the room's name. `POST` splits
/// the rest once more, into the room's name and the message, and a message
/// of no characters makes no request.
pub open spec fn request(word: Seq<char>, rest: Seq<char>) -> Option<Command> {
    if word == "JOIN"@ {
        Some(Command::Join { chat_name: rest })
    } else if word == "POST"@ {
        match split_line(rest) {
            Some((chat_name, message)) => if message.len() == 0 {
                None
            } else {
                Some(Command::Post { chat_name, message })
            },
            None => None,
        }
    } else if word == "LEAVE"@ {
        Some(Command::Leave { chat_name: rest })
    } else {
        None
    }
}

/// The request that a line stands for, if it stands for one.
pub open spec fn request_of_line(line: Seq<char>) -> Option<Command> {
    match split_line(line) {
        Some((word, rest)) => request(uppercase(word), rest),
        None => None,
    }
}

/// The white space that a text begins with is white space, and what comes
/// after it is not.
pub proof fn lemma_white_space_len(text: Seq<char>)
    ensures
        white_space_len(text) <= text.len(),
        forall|i: int| 0 <= i < white_space_len(text) ==> is_white_space(#[trigger] text[i]),
        white_space_len(text) < text.len() ==> !is_white_space(
            text[white_space_len(text) as int],
        ),
    decreases text.len(),
{
    if text.len() > 0 && is_white_space(text[0]) {
        lemma_white_space_len(text.skip(1));
        assert forall|i: int| 0 <= i < white_space_len(text) implies is_white_space(
            #[trigger] text[i],
        ) by {
            if i > 0 {
                assert(text[i] == text.skip(1)[i - 1]);
            }
        }
        if white_space_len(text) < text.len() {
            assert(text[white_space_len(text) as int] == text.skip(1)[white_space_len(text) - 1]);
        }
    }
}

/// The word that a text begins with holds no white space, and ends at white
/// space or at the text's end.
pub proof fn lemma_word_len(text: Seq<char>)
    ensures
        word_len(text) <= text.len(),
        forall|i: int| 0 <= i < word_len(text) ==> !is_white_space(#[trigger] text[i]),
        word_len(text) < text.len() ==> is_white_space(text[word_len(text) as int]),
    decreases text.len(),
{
    if !(text.len() == 0 || is_white_space(text[0])) {
        lemma_word_len(text.skip(1));
        assert forall|i: int| 0 <= i < word_len(text) implies !is_white_space(
            #[trigger] text[i],
        ) by {
            if i > 0 {
                assert(text[i] == text.skip(1)[i - 1]);
            }
        }
        if word_len(text) < text.len() {
            assert(text[word_len(text) as int] == text.skip(1)[word_len(text) - 1]);
        }
    }
}

/// Where a line is cut.
///
/// The word that a line is split into is a whole word of the line: it has at
/// least one character and no white space in it, only white space stands
/// before it, and it ends at the line's end or at a white-space character.
/// The rest is the line after that character.
pub proof fn lemma_split_line_cuts_at_white_space(line: Seq<char>)
    ensures
        split_line(line) is None <==> forall|i: int|
            0 <= i < line.len() ==> is_white_space(#[trigger] line[i]),
        split_line(line) matches Some((word, rest)) ==> {
            let start = white_space_len(line) as int;
            let end = start + word.len();
            &&& word.len() > 0
            &&& forall|i: int| 0 <= i < word.len() ==> !is_white_space(#[trigger] word[i])
            &&& forall|i: int| 0 <= i < start ==> is_white_space(#[trigger] line[i])
            &&& end <= line.len()
            &&& word == line.subrange(start, end)
            &&& if end == line.len() {
                rest == Seq::<char>::empty()
            } else {
                is_white_space(line[end]) && rest == line.skip(end + 1)
            }
        },
{
    let trimmed = skip_white_space(line);
    let start = white_space_len(line) as int;
    lemma_white_space_len(line);
    lemma_word_len(trimmed);
    if start < line.len() {
        assert(trimmed[0] == line[start]);
        let word = word_len(trimmed) as int;
        assert(trimmed.take(word) =~= line.subrange(start, start + word));
        if word < trimmed.len() {
            assert(trimmed[word] == line[start + word]);
            assert(trimmed.skip(word + 1) =~= line.skip(start + word + 1));
        } else {
            assert(trimmed =~= line.subrange(start, start + word));
        }
    }
}

/// A Post names a room and carries a message: no line stands for a Post
/// whose message is empty, or whose room's name is empty or holds white
/// space.
pub proof fn lemma_post_names_a_room(line: Seq<char>)
    ensures
        request_of_line(line) matches Some(Command::Post { chat_name, message }) ==> {
            &&& message.len() > 0
            &&& chat_name.len() > 0
            &&& forall|i: int| 0 <= i < chat_name.len() ==> !is_white_space(#[trigger] chat_name[i])
        },
{
    if let Some((word, rest)) = split_line(line) {
        lemma_split_line_cuts_at_white_space(rest);
    }
}

/// Whether a character is white space.
pub fn is_whitespace(c: char) -> (white: bool)
    ensures
        white == is_white_space(c),
{
    let code = c as u32;
    (0x09 <= code && code <= 0x0D) || code == 0x20 || code == 0x85 || code == 0xA0 || code
        == 0x1680 || (0x2000 <= code && code <= 0x200A) || code == 0x2028 || code == 0x2029
        || code == 0x202F || code == 0x205F || code == 0x3000
}

fn to_chars(text: &str) -> (chars: Vec<char>)
    ensures
        chars@ == text@,
{
    let mut chars: Vec<char> = Vec::new();
    for c in it: text.chars()
        invariant
            chars@ == it.seq().take(it.index() as int),
            it.seq() == text@,
    {
        chars.push(c);
    }
    assert(chars@ =~= text@);
    chars
}

/// Splits a line into its first word and what follows it: see
/// [`split_line`].
pub fn parse_input(input: &str) -> (parts: Option<(&str, &str)>)
    ensures
        match parts {
            Some((word, rest)) => split_line(input@) == Some((word@, rest@)),
            None => split_line(input@) is None,
        },
{
    let chars = to_chars(input);
    let n = chars.len();
    let ghost line = input@;
    // The white space in front.
    let mut start: usize = 0;
    assert(line.skip(0) =~= line);
    while start < n && is_whitespace(chars[start])
        invariant
            start <= n,
            n == line.len(),
            chars@ == line,
            white_space_len(line) == start + white_space_len(line.skip(start as int)),
        decreases n - start,
    {
        assert(line.skip(start as int).skip(1) =~= line.skip(start as int + 1));
        start = start + 1;
    }
    assert(white_space_len(line) == start);
    let ghost trimmed = line.skip(start as int);
    if start == n {
        return None;
    }
    // The word.
    let mut end: usize = start;
    assert(trimmed.skip(0) =~= trimmed);
    while end < n && !is_whitespace(chars[end])
        invariant
            start <= end <= n,
            n == line.len(),
            chars@ == line,
            trimmed == line.skip(start as int),
            word_len(trimmed) == (end - start) + word_len(trimmed.skip(end - start)),
        decreases n - end,
    {
        assert(trimmed.skip(end - start).skip(1) =~= trimmed.skip(end - start + 1));
        end = end + 1;
    }
    assert(word_len(trimmed) == end - start);
    let word = input.substring_char(start, end);
    if end == n {
        proof {
            reveal_strlit("");
        }
        assert(""@ =~= Seq::<char>::empty());
        assert(word@ =~= trimmed);
        return Some((word, ""));
    }
    let rest = input.substring_char(end + 1, n);
    assert(word@ =~= trimmed.take(end - start));
    assert(rest@ =~= trimmed.skip(end - start + 1));
    Some((word, rest))
}

/// `str::to_uppercase` of the standard library. Trusted, not proved: the
/// call returns its argument in capitals, and what that is depends on the
/// argument's characters and on nothing else.
#[verifier::external_body]
fn to_uppercase(text: &str) -> (upper: String)
    ensures
        upper@ == uppercase(text@),
{
    text.to_uppercase()
}

/// The request that a command word, in capitals, and the rest of its line
/// stand for: see [`request`].
pub fn action_for(word: &str, rest: &str) -> (action: Option<ClientAction>)
    ensures
        match action {
            Some(action) => request(word@, rest@) == Some(action@),
            None => request(word@, rest@) is None,
        },
{
    if same_text(word, "JOIN") {
        Some(ClientAction::Join { chat_name: rest.to_owned() })
    } else if same_text(word, "POST") {
        match parse_input(rest) {
            Some((chat_name, message)) => {
                if message.is_empty() {
                    None
                } else {
                    Some(
                        ClientAction::Post {
                            chat_name: chat_name.to_owned(),
                            message: message.to_owned(),
                        },
                    )
                }
            },
            None => None,
        }
    } else if same_text(word, "LEAVE") {
        Some(ClientAction::Leave { chat_name: rest.to_owned() })
    } else {
        None
    }
}

/// The request that a typed line stands for, or `None` for a line that
/// stands for none: see [`request_of_line`].
pub fn get_action(input: &str) -> (action: Option<ClientAction>)
    ensures
        match action {
            Some(action) => request_of_line(input@) == Some(action@),
            None => request_of_line(input@) is None,
        },
{
    match parse_input(input) {
        Some((word, rest)) => {
            let upper = to_uppercase(word);
            action_for(upper.as_str(), rest)
        },
        None => None,
    }
}

} // verus!
