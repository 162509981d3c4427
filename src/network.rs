//! Commands that players send to the server, one per line.
use crate::text::{chars_of, parse_unsigned, parse_unsigned_of, same_chars, string_of};
use vstd::prelude::*;

verus! {

/// `std::io::Error`, carried unread inside `Error::IO`.
#[verifier::external_type_specification]
#[verifier::external_body]
pub struct ExIoError(std::io::Error);

/// `std::str::Utf8Error`, carried unread inside `Error::Utf8`.
#[verifier::external_type_specification]
#[verifier::external_body]
pub struct ExUtf8Error(std::str::Utf8Error);

/// What can go wrong while talking to a player.
#[derive(Debug)]
pub enum Error {
    InvalidArgument,
    UnknownCommand,
    ConnectionLost,
    WouldBlock,
    GameFull,
    IO(std::io::Error),
    Utf8(std::str::Utf8Error),
}

/// A board position, `(x, y)`.
pub type Position = (u16, u16);

/// A player's command.
#[derive(Debug)]
pub enum Command {
    Login(String, String),
    Put(Position),
}

/// The index of the first space in `s` at or after `i`, or `s.len()`.
pub open spec fn word_end(s: Seq<char>, i: int) -> int
    decreases s.len() - i,
{
    if i >= s.len() || s[i] == ' ' {
        i
    } else {
        word_end(s, i + 1)
    }
}

/// The three fields of `s` as `str::splitn(3, ' ')` gives them, with a
/// missing field read as empty: the text before the first space, the text
/// between the first and second space, and all the rest.
pub open spec fn three_fields(s: Seq<char>) -> (Seq<char>, Seq<char>, Seq<char>) {
    let e0 = word_end(s, 0);
    let f0 = s.subrange(0, e0);
    if e0 >= s.len() {
        (f0, Seq::empty(), Seq::empty())
    } else {
        let e1 = word_end(s, e0 + 1);
        let f1 = s.subrange(e0 + 1, e1);
        if e1 >= s.len() {
            (f0, f1, Seq::empty())
        } else {
            (f0, f1, s.subrange(e1 + 1, s.len() as int))
        }
    }
}

/// The end of the word that starts at `i`.
fn find_word_end(s: &Vec<char>, i: usize) -> (r: usize)
    requires
        i <= s@.len(),
    ensures
        r == word_end(s@, i as int),
        i <= r <= s@.len(),
{
    let mut j = i;
    while j < s.len() && s[j] != ' '
        invariant
            i <= j <= s@.len(),
            word_end(s@, i as int) == word_end(s@, j as int),
        decreases s@.len() - j,
    {
        j = j + 1;
    }
    j
}

/// The characters `s[from..to]`.
fn slice_chars(s: &Vec<char>, from: usize, to: usize) -> (r: Vec<char>)
    requires
        from <= to <= s@.len(),
    ensures
        r@ == s@.subrange(from as int, to as int),
{
    let mut r: Vec<char> = Vec::new();
    let mut i = from;
    while i < to
        invariant
            from <= i <= to,
            to <= s@.len(),
            r@ == s@.subrange(from as int, i as int),
        decreases to - i,
    {
        r.push(s[i]);
        i = i + 1;
        assert(r@ =~= s@.subrange(from as int, i as int));
    }
    r
}

impl Command {
    /// Reads the command on `line`: `LOGIN user password` (the password is
    /// the rest of the line, and either may be empty) or `PUT x y` with two
    /// coordinates that fit in `u16`. Coordinates that do not parse give
    /// `InvalidArgument`; any other first word gives `UnknownCommand`.
    pub fn parse(line: &str) -> (r: Result<Command, Error>)
        ensures
            ({
                let (f0, f1, f2) = three_fields(line@);
                if f0 == "LOGIN"@ {
                    r matches Ok(Command::Login(user, pass)) && user@ == f1 && pass@ == f2
                } else if f0 == "PUT"@ {
                    match (parse_unsigned(f1, u16::MAX as nat), parse_unsigned(f2, u16::MAX as nat)) {
                        (Some(x), Some(y)) => r matches Ok(Command::Put(q)) && q == (x as u16, y as u16),
                        _ => r matches Err(Error::InvalidArgument),
                    }
                } else {
                    r matches Err(Error::UnknownCommand)
                }
            }),
    {
        let s = chars_of(line);
        let e0 = find_word_end(&s, 0);
        let f0 = slice_chars(&s, 0, e0);
        let (f1, f2) = if e0 >= s.len() {
            (Vec::new(), Vec::new())
        } else {
            let e1 = find_word_end(&s, e0 + 1);
            let f1 = slice_chars(&s, e0 + 1, e1);
            if e1 >= s.len() {
                (f1, Vec::new())
            } else {
                (f1, slice_chars(&s, e1 + 1, s.len()))
            }
        };
        proof {
            let (g0, g1, g2) = three_fields(line@);
            assert(f0@ == g0);
            assert(f1@ =~= g1);
            assert(f2@ =~= g2);
        }
        if same_chars(&f0, &chars_of("LOGIN")) {
            Ok(Command::Login(string_of(&f1), string_of(&f2)))
        } else if same_chars(&f0, &chars_of("PUT")) {
            let x = parse_unsigned_of(&f1, u16::MAX as u32);
            let y = parse_unsigned_of(&f2, u16::MAX as u32);
            match (x, y) {
                (Some(x), Some(y)) => Ok(Command::Put((x as u16, y as u16))),
                _ => Err(Error::InvalidArgument),
            }
        } else {
            Err(Error::UnknownCommand)
        }
    }
}

impl std::str::FromStr for Command {
    type Err = Error;

    fn from_str(line: &str) -> Result<Self, Self::Err> {
        Command::parse(line)
    }
}

} // verus!
