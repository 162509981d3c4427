//! The line protocol between a client and the server: one message per line,
//! words separated by single spaces.
use crate::text::{
    chars_of, decimal, lemma_decimal_digits, lemma_split_append_space, lemma_split_append_word,
    parse_unsigned, parse_unsigned_of, push_decimal, same_chars, split_spaces, split_spaces_of,
    string_of,
};
use vstd::prelude::*;
use vstd::string::StringExecFns;

verus! {

/// Something that can be written as one protocol line.
pub trait Serialize {
    fn serialize(&self) -> Result<String, Error>;
}

/// Something that can be read back from one protocol line.
pub trait Deserialize where Self: Sized {
    fn deserialize(input: &str) -> Result<Self, Error>;
}

/// What can go wrong in a protocol exchange.
#[derive(Clone, Copy, Debug, PartialEq, Eq, Structural)]
pub enum Error {
    UnexpectedEof,
    InvalidArgument,
    UnknownCommand,
    UnexpectedCommand,
    Timeout,
    InvalidCredentials,
}

impl Error {
    /// The error's name as it appears on the wire.
    pub open spec fn name_spec(self) -> Seq<char> {
        match self {
            Error::UnexpectedEof => "UnexpectedEof"@,
            Error::InvalidArgument => "InvalidArgument"@,
            Error::UnknownCommand => "UnknownCommand"@,
            Error::UnexpectedCommand => "UnexpectedCommand"@,
            Error::Timeout => "Timeout"@,
            Error::InvalidCredentials => "InvalidCredentials"@,
        }
    }

    pub fn name(&self) -> (r: String)
        ensures
            r@ == self.name_spec(),
    {
        match self {
            Error::UnexpectedEof => String::from_str("UnexpectedEof"),
            Error::InvalidArgument => String::from_str("InvalidArgument"),
            Error::UnknownCommand => String::from_str("UnknownCommand"),
            Error::UnexpectedCommand => String::from_str("UnexpectedCommand"),
            Error::Timeout => String::from_str("Timeout"),
            Error::InvalidCredentials => String::from_str("InvalidCredentials"),
        }
    }
}

/// A protocol message.
pub enum Protocol {
    Login(String, String),
    Put(u32, u32),
    Error(Error),
    Motd(String),
}

/// A protocol message with its strings as character sequences.
pub enum Message {
    Login(Seq<char>, Seq<char>),
    Put(u32, u32),
    Error(Error),
    Motd(Seq<char>),
}

impl View for Protocol {
    type V = Message;

    open spec fn view(&self) -> Message {
        match self {
            Protocol::Login(u, p) => Message::Login(u@, p@),
            Protocol::Put(x, y) => Message::Put(*x, *y),
            Protocol::Error(e) => Message::Error(*e),
            Protocol::Motd(m) => Message::Motd(m@),
        }
    }
}

/// The line that carries `m`.
pub open spec fn encode(m: Message) -> Seq<char> {
    match m {
        Message::Login(u, p) => "LOGIN "@ + u + " "@ + p,
        Message::Put(x, y) => "PUT "@ + decimal(x as nat) + " "@ + decimal(y as nat),
        Message::Error(e) => "ERROR "@ + e.name_spec(),
        Message::Motd(m) => "MOTD "@ + m,
    }
}

/// The message that line `s` carries. The first word names the message;
/// `LOGIN` takes a name and a password, `PUT` two numbers. Missing words
/// give `UnexpectedEof`, a word that is not a number `InvalidArgument`, an
/// unknown first word `UnknownCommand`. Extra words are ignored.
pub open spec fn decode(s: Seq<char>) -> Result<Message, Error> {
    let t = split_spaces(s);
    if t[0] == "LOGIN"@ {
        if t.len() < 3 {
            Err(Error::UnexpectedEof)
        } else {
            Ok(Message::Login(t[1], t[2]))
        }
    } else if t[0] == "PUT"@ {
        if t.len() < 2 {
            Err(Error::UnexpectedEof)
        } else if parse_unsigned(t[1], u32::MAX as nat) is None {
            Err(Error::InvalidArgument)
        } else if t.len() < 3 {
            Err(Error::UnexpectedEof)
        } else if parse_unsigned(t[2], u32::MAX as nat) is None {
            Err(Error::InvalidArgument)
        } else {
            Ok(
                Message::Put(
                    parse_unsigned(t[1], u32::MAX as nat)->0 as u32,
                    parse_unsigned(t[2], u32::MAX as nat)->0 as u32,
                ),
            )
        }
    } else {
        Err(Error::UnknownCommand)
    }
}

/// A `PUT` line reads back as the message it was written from.
pub proof fn lemma_put_round_trip(x: u32, y: u32)
    ensures
        decode(encode(Message::Put(x, y))) == Ok::<Message, Error>(Message::Put(x, y)),
{
    reveal_strlit("PUT ");
    reveal_strlit("PUT");
    reveal_strlit(" ");
    reveal_strlit("LOGIN");
    let dx = decimal(x as nat);
    let dy = decimal(y as nat);
    lemma_decimal_digits(x as nat);
    lemma_decimal_digits(y as nat);
    let put = "PUT"@;
    assert forall|i: int| 0 <= i < put.len() implies #[trigger] put[i] != ' ' by {}
    assert forall|i: int| 0 <= i < dx.len() implies #[trigger] dx[i] != ' ' by {
        assert('0' <= dx[i] <= '9');
    }
    assert forall|i: int| 0 <= i < dy.len() implies #[trigger] dy[i] != ' ' by {
        assert('0' <= dy[i] <= '9');
    }
    let e = Seq::<char>::empty();
    lemma_split_append_word(e, put);
    assert(e + put =~= put);
    assert(split_spaces(e) =~= seq![e]);
    assert(split_spaces(put) =~= seq![put]);
    let a = put.push(' ');
    lemma_split_append_space(put);
    assert(split_spaces(a) =~= seq![put, e]);
    lemma_split_append_word(a, dx);
    let b = a + dx;
    assert(split_spaces(b) =~= seq![put, dx]);
    let c = b.push(' ');
    lemma_split_append_space(b);
    lemma_split_append_word(c, dy);
    let d = c + dy;
    assert(split_spaces(d) =~= seq![put, dx, dy]);
    assert(encode(Message::Put(x, y)) =~= d);
    assert(put != "LOGIN"@) by {
        assert(put.len() != "LOGIN"@.len());
    }
    assert(dx[0] != '+') by {
        assert('0' <= dx[0] <= '9');
    }
    assert(dy[0] != '+') by {
        assert('0' <= dy[0] <= '9');
    }
}

impl Protocol {
    /// The message as one line, without the line break.
    pub fn serialize(&self) -> (r: Result<String, Error>)
        ensures
            r matches Ok(s) && s@ == encode(self@),
    {
        match self {
            Protocol::Login(username, password) => {
                let mut s = String::from_str("LOGIN ");
                s.append(username.as_str());
                s.append(" ");
                s.append(password.as_str());
                Ok(s)
            },
            Protocol::Put(x, y) => {
                let mut s = String::from_str("PUT ");
                push_decimal(&mut s, *x);
                s.append(" ");
                push_decimal(&mut s, *y);
                Ok(s)
            },
            Protocol::Error(e) => {
                let mut s = String::from_str("ERROR ");
                let name = e.name();
                s.append(name.as_str());
                Ok(s)
            },
            Protocol::Motd(motd) => {
                let mut s = String::from_str("MOTD ");
                s.append(motd.as_str());
                Ok(s)
            },
        }
    }

    /// Reads the message on line `input`.
    pub fn deserialize(input: &str) -> (r: Result<Self, Error>)
        ensures
            r matches Ok(p) ==> decode(input@) == Ok::<Message, Error>(p@),
            r matches Err(e) ==> decode(input@) == Err::<Message, Error>(e),
    {
        let chars = chars_of(input);
        let words = split_spaces_of(&chars);
        let login = chars_of("LOGIN");
        let put = chars_of("PUT");
        let ghost t = split_spaces(input@);
        proof {
            assert(words@[0]@ == t[0]);
            if words@.len() >= 2 {
                assert(words@[1]@ == t[1]);
            }
            if words@.len() >= 3 {
                assert(words@[2]@ == t[2]);
            }
        }
        if same_chars(&words[0], &login) {
            if words.len() < 3 {
                Err(Error::UnexpectedEof)
            } else {
                Ok(Protocol::Login(string_of(&words[1]), string_of(&words[2])))
            }
        } else if same_chars(&words[0], &put) {
            if words.len() < 2 {
                return Err(Error::UnexpectedEof);
            }
            let x = match parse_unsigned_of(&words[1], u32::MAX) {
                Some(v) => v,
                None => {
                    return Err(Error::InvalidArgument);
                },
            };
            if words.len() < 3 {
                return Err(Error::UnexpectedEof);
            }
            let y = match parse_unsigned_of(&words[2], u32::MAX) {
                Some(v) => v,
                None => {
                    return Err(Error::InvalidArgument);
                },
            };
            Ok(Protocol::Put(x, y))
        } else {
            Err(Error::UnknownCommand)
        }
    }
}

impl Serialize for Protocol {
    fn serialize(&self) -> Result<String, Error> {
        Protocol::serialize(self)
    }
}

impl Deserialize for Protocol {
    fn deserialize(input: &str) -> Result<Self, Error> {
        Protocol::deserialize(input)
    }
}

} // verus!
