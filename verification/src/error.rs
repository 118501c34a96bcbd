//! The text of the solver's error messages: `kissat: <kind>: <message>`
//! and a newline, with the prefix bold and the kind red on a terminal.
use vstd::prelude::*;
use crate::text::push_str;

verus! {

pub const BOLD: &'static str = "\x1b[1m";
pub const RED: &'static str = "\x1b[31m";
pub const NORMAL: &'static str = "\x1b[0m";

/// The colour code `code` when colours are on, nothing otherwise.
pub open spec fn colour(code: Seq<char>, colours: bool) -> Seq<char> {
    if colours { code } else { Seq::empty() }
}

/// The start of a message of kind `kind`: everything before the message.
pub open spec fn message_start(kind: Seq<char>, colours: bool) -> Seq<char> {
    colour(BOLD@, colours) + "kissat: "@ + colour(RED@, colours) + kind + ": "@ + colour(NORMAL@, colours)
}

/// The start of a message of kind `kind`.
pub fn error_message_start(kind: &str, colours: bool) -> (r: String)
    ensures
        r@ == message_start(kind@, colours),
{
    let mut s = String::new();
    if colours {
        push_str(&mut s, BOLD);
    }
    push_str(&mut s, "kissat: ");
    if colours {
        push_str(&mut s, RED);
    }
    push_str(&mut s, kind);
    push_str(&mut s, ": ");
    if colours {
        push_str(&mut s, NORMAL);
    }
    proof {
        assert(s@ =~= message_start(kind@, colours));
    }
    s
}

/// The whole message of kind `kind` with text `text`, ending in a newline.
pub fn error_message(kind: &str, text: &str, colours: bool) -> (r: String)
    ensures
        r@ == message_start(kind@, colours) + text@ + "\n"@,
{
    let mut s = error_message_start(kind, colours);
    push_str(&mut s, text);
    push_str(&mut s, "\n");
    s
}

} // verus!
