//! The command grammar: a raw input line is split into blank-separated
//! words and matched against the fixed verb-argument patterns.

use vstd::prelude::*;
use vstd::string::*;
use crate::text::{blank, is_blank, str_eq};

verus! {

/// A parsed player command.
pub enum Command {
    /// Advance to the next room.
    Next,
    /// Backtrack to the previous room.
    Previous,
    /// Look around the room.
    Look,
    /// Look at something by name prefix.
    LookAt(String),
    /// List the items inside a container.
    LookIn(String),
    /// Pick something up from the room.
    Get(String),
    /// Take an item out of a container.
    GetFrom(String, String),
    /// List the player's own inventory.
    Inventory,
    /// Put an inventory item into a container.
    PutIn(String, String),
    /// Drop an inventory item into the room.
    Drop(String),
    /// Print the help text.
    Help,
    /// Anything that matches no pattern.
    Unknown,
}

/// The mathematical content of a `Command`.
pub ghost enum CommandView {
    Next,
    Previous,
    Look,
    LookAt(Seq<char>),
    LookIn(Seq<char>),
    Get(Seq<char>),
    GetFrom(Seq<char>, Seq<char>),
    Inventory,
    PutIn(Seq<char>, Seq<char>),
    Drop(Seq<char>),
    Help,
    Unknown,
}

impl View for Command {
    type V = CommandView;

    open spec fn view(&self) -> CommandView {
        match self {
            Command::Next => CommandView::Next,
            Command::Previous => CommandView::Previous,
            Command::Look => CommandView::Look,
            Command::LookAt(x) => CommandView::LookAt(x@),
            Command::LookIn(x) => CommandView::LookIn(x@),
            Command::Get(x) => CommandView::Get(x@),
            Command::GetFrom(x, y) => CommandView::GetFrom(x@, y@),
            Command::Inventory => CommandView::Inventory,
            Command::PutIn(x, y) => CommandView::PutIn(x@, y@),
            Command::Drop(x) => CommandView::Drop(x@),
            Command::Help => CommandView::Help,
            Command::Unknown => CommandView::Unknown,
        }
    }
}

// ---------------------------------------------------------------------------
// Tokenizing
// ---------------------------------------------------------------------------

/// Splits `s[i..]` into blank-separated words, given the start of the word
/// currently being read (if any) and the words already read.
pub open spec fn tokens_from(
    s: Seq<char>,
    i: int,
    start: Option<int>,
    acc: Seq<Seq<char>>,
) -> Seq<Seq<char>>
    decreases s.len() - i,
{
    if i < 0 || i >= s.len() {
        match start {
            Some(st) => acc.push(s.subrange(st, s.len() as int)),
            None => acc,
        }
    } else if is_blank(s[i]) {
        match start {
            Some(st) => tokens_from(s, i + 1, None, acc.push(s.subrange(st, i))),
            None => tokens_from(s, i + 1, None, acc),
        }
    } else {
        match start {
            Some(st) => tokens_from(s, i + 1, start, acc),
            None => tokens_from(s, i + 1, Some(i), acc),
        }
    }
}

/// The blank-separated words of `s`.
pub open spec fn tokenize_spec(s: Seq<char>) -> Seq<Seq<char>> {
    tokens_from(s, 0, None, Seq::<Seq<char>>::empty())
}

/// Splits an input line into words at blanks.
pub fn tokenize(s: &str) -> (out: Vec<String>)
    ensures
        out.deep_view() == tokenize_spec(s@),
{
    let len = s.unicode_len();
    let mut out: Vec<String> = Vec::new();
    let mut start: Option<usize> = None;
    let mut i: usize = 0;
    proof {
        assert(out.deep_view() =~= Seq::<Seq<char>>::empty());
    }
    while i < len
        invariant
            i <= len,
            len == s@.len(),
            match start {
                Some(st) => st < i,
                None => true,
            },
            tokenize_spec(s@) == tokens_from(
                s@,
                i as int,
                match start {
                    Some(st) => Some(st as int),
                    None => None::<int>,
                },
                out.deep_view(),
            ),
        decreases len - i,
    {
        let ghost out0 = out.deep_view();
        if blank(s.get_char(i)) {
            match start {
                Some(st) => {
                    let word = s.substring_char(st, i);
                    out.push(String::from_str(word));
                    proof {
                        assert(out.deep_view() =~= out0.push(s@.subrange(st as int, i as int)));
                    }
                    start = None;
                },
                None => {},
            }
        } else {
            match start {
                Some(_) => {},
                None => {
                    start = Some(i);
                },
            }
        }
        i += 1;
    }
    match start {
        Some(st) => {
            let ghost out0 = out.deep_view();
            let word = s.substring_char(st, len);
            out.push(String::from_str(word));
            proof {
                assert(out.deep_view() =~= out0.push(s@.subrange(st as int, len as int)));
            }
        },
        None => {},
    }
    out
}

// ---------------------------------------------------------------------------
// Parsing
// ---------------------------------------------------------------------------

/// The command denoted by a word sequence.  One-word commands are the bare
/// verbs; "look", "get" and "put" take their objects as further words, with
/// the optional filler words "at", "in" and "from".
pub open spec fn parse_spec(toks: Seq<Seq<char>>) -> CommandView {
    if toks.len() == 1 {
        if toks[0] == "next"@ {
            CommandView::Next
        } else if toks[0] == "previous"@ || toks[0] == "prev"@ {
            CommandView::Previous
        } else if toks[0] == "look"@ {
            CommandView::Look
        } else if toks[0] == "inv"@ || toks[0] == "inventory"@ {
            CommandView::Inventory
        } else if toks[0] == "help"@ {
            CommandView::Help
        } else {
            CommandView::Unknown
        }
    } else if toks.len() == 2 {
        if toks[0] == "look"@ {
            CommandView::LookAt(toks[1])
        } else if toks[0] == "get"@ {
            CommandView::Get(toks[1])
        } else if toks[0] == "drop"@ {
            CommandView::Drop(toks[1])
        } else {
            CommandView::Unknown
        }
    } else if toks.len() == 3 {
        if toks[0] == "look"@ && toks[1] == "in"@ {
            CommandView::LookIn(toks[2])
        } else if toks[0] == "look"@ && toks[1] == "at"@ {
            CommandView::LookAt(toks[2])
        } else if toks[0] == "get"@ {
            CommandView::GetFrom(toks[1], toks[2])
        } else if toks[0] == "put"@ {
            CommandView::PutIn(toks[1], toks[2])
        } else {
            CommandView::Unknown
        }
    } else if toks.len() == 4 {
        if toks[0] == "get"@ && toks[2] == "from"@ {
            CommandView::GetFrom(toks[1], toks[3])
        } else if toks[0] == "put"@ && toks[2] == "in"@ {
            CommandView::PutIn(toks[1], toks[3])
        } else {
            CommandView::Unknown
        }
    } else {
        CommandView::Unknown
    }
}

fn copy_of(s: &String) -> (r: String)
    ensures
        r@ == s@,
{
    String::from_str(s.as_str())
}

/// Parses a word sequence into a command.
pub fn parse_tokens(toks: &Vec<String>) -> (r: Command)
    ensures
        r@ == parse_spec(toks.deep_view()),
{
    let n = toks.len();
    proof {
        assert(toks.deep_view().len() == toks@.len());
    }
    if n == 1 {
        let t0 = toks[0].as_str();
        if str_eq(t0, "next") {
            Command::Next
        } else if str_eq(t0, "previous") || str_eq(t0, "prev") {
            Command::Previous
        } else if str_eq(t0, "look") {
            Command::Look
        } else if str_eq(t0, "inv") || str_eq(t0, "inventory") {
            Command::Inventory
        } else if str_eq(t0, "help") {
            Command::Help
        } else {
            Command::Unknown
        }
    } else if n == 2 {
        let t0 = toks[0].as_str();
        if str_eq(t0, "look") {
            Command::LookAt(copy_of(&toks[1]))
        } else if str_eq(t0, "get") {
            Command::Get(copy_of(&toks[1]))
        } else if str_eq(t0, "drop") {
            Command::Drop(copy_of(&toks[1]))
        } else {
            Command::Unknown
        }
    } else if n == 3 {
        let t0 = toks[0].as_str();
        let t1 = toks[1].as_str();
        if str_eq(t0, "look") && str_eq(t1, "in") {
            Command::LookIn(copy_of(&toks[2]))
        } else if str_eq(t0, "look") && str_eq(t1, "at") {
            Command::LookAt(copy_of(&toks[2]))
        } else if str_eq(t0, "get") {
            Command::GetFrom(copy_of(&toks[1]), copy_of(&toks[2]))
        } else if str_eq(t0, "put") {
            Command::PutIn(copy_of(&toks[1]), copy_of(&toks[2]))
        } else {
            Command::Unknown
        }
    } else if n == 4 {
        let t0 = toks[0].as_str();
        let t2 = toks[2].as_str();
        if str_eq(t0, "get") && str_eq(t2, "from") {
            Command::GetFrom(copy_of(&toks[1]), copy_of(&toks[3]))
        } else if str_eq(t0, "put") && str_eq(t2, "in") {
            Command::PutIn(copy_of(&toks[1]), copy_of(&toks[3]))
        } else {
            Command::Unknown
        }
    } else {
        Command::Unknown
    }
}

/// Parses a raw input line: tokenize, then match the patterns.
pub fn parse_input(line: &str) -> (r: Command)
    ensures
        r@ == parse_spec(tokenize_spec(line@)),
{
    let toks = tokenize(line);
    parse_tokens(&toks)
}

} // verus!
