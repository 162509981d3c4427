use simgo::auth::UserAuth;
use simgo::client::{Tile, TileMap};
use simgo::network::{Command, Error as NetError};
use simgo::protocol::{Error, Protocol};
use std::str::FromStr;

#[test]
fn first_login_registers_the_user() {
    let mut auth = UserAuth::new();
    assert_eq!(auth.is_valid_or_insert("ann".to_owned(), "pw".to_owned()), Some("ann".to_owned()));
    assert_eq!(auth.is_valid_or_insert("ann".to_owned(), "pw".to_owned()), Some("ann".to_owned()));
}

#[test]
fn wrong_password_is_refused_and_changes_nothing() {
    let mut auth = UserAuth::new();
    auth.is_valid_or_insert("ann".to_owned(), "pw".to_owned());
    assert_eq!(auth.is_valid_or_insert("ann".to_owned(), "nope".to_owned()), None);
    assert_eq!(auth.is_valid_or_insert("ann".to_owned(), "pw".to_owned()), Some("ann".to_owned()));
    assert_eq!(auth.is_valid_or_insert("bob".to_owned(), "nope".to_owned()), Some("bob".to_owned()));
}

#[test]
fn protocol_lines_are_written_in_words() {
    let login = Protocol::Login("ann".to_owned(), "pw".to_owned());
    assert_eq!(login.serialize().unwrap(), "LOGIN ann pw");
    assert_eq!(Protocol::Put(0, 4294967295).serialize().unwrap(), "PUT 0 4294967295");
    assert_eq!(Protocol::Put(120, 7).serialize().unwrap(), "PUT 120 7");
    assert_eq!(Protocol::Error(Error::InvalidCredentials).serialize().unwrap(), "ERROR InvalidCredentials");
    assert_eq!(Protocol::Motd("hello there".to_owned()).serialize().unwrap(), "MOTD hello there");
}

#[test]
fn protocol_lines_are_read_back() {
    match Protocol::deserialize("PUT 3 +14") {
        Ok(Protocol::Put(3, 14)) => {}
        _ => panic!("expected PUT 3 14"),
    }
    match Protocol::deserialize("LOGIN ann pw extra") {
        Ok(Protocol::Login(u, p)) => {
            assert_eq!(u, "ann");
            assert_eq!(p, "pw");
        }
        _ => panic!("expected LOGIN"),
    }
}

#[test]
fn protocol_read_errors() {
    assert!(matches!(Protocol::deserialize("PUT 3"), Err(Error::UnexpectedEof)));
    assert!(matches!(Protocol::deserialize("PUT x 3"), Err(Error::InvalidArgument)));
    assert!(matches!(Protocol::deserialize("PUT 3 4294967296"), Err(Error::InvalidArgument)));
    assert!(matches!(Protocol::deserialize("PUT 3 4\n"), Err(Error::InvalidArgument)));
    assert!(matches!(Protocol::deserialize("LOGIN ann"), Err(Error::UnexpectedEof)));
    assert!(matches!(Protocol::deserialize("MOTD hi"), Err(Error::UnknownCommand)));
    assert!(matches!(Protocol::deserialize(""), Err(Error::UnknownCommand)));
}

#[test]
fn protocol_put_round_trip() {
    let line = Protocol::Put(65535, 12).serialize().unwrap();
    assert!(matches!(Protocol::deserialize(&line), Ok(Protocol::Put(65535, 12))));
}

#[test]
fn error_names() {
    assert_eq!(Error::UnexpectedEof.name(), "UnexpectedEof");
    assert_eq!(Error::Timeout.name(), "Timeout");
}

#[test]
fn commands_parse() {
    assert!(matches!(Command::parse("PUT 4 5"), Ok(Command::Put((4, 5)))));
    match Command::from_str("LOGIN ann secret words") {
        Ok(Command::Login(u, p)) => {
            assert_eq!(u, "ann");
            assert_eq!(p, "secret words");
        }
        _ => panic!("expected LOGIN"),
    }
    match Command::parse("LOGIN") {
        Ok(Command::Login(u, p)) => {
            assert_eq!(u, "");
            assert_eq!(p, "");
        }
        _ => panic!("expected LOGIN"),
    }
}

#[test]
fn command_errors() {
    assert!(matches!(Command::parse("PUT 4 70000"), Err(NetError::InvalidArgument)));
    assert!(matches!(Command::parse("PUT 4 5 6"), Err(NetError::InvalidArgument)));
    assert!(matches!(Command::parse("PUT 4"), Err(NetError::InvalidArgument)));
    assert!(matches!(Command::parse("JUMP 4 5"), Err(NetError::UnknownCommand)));
}

#[test]
fn client_tiles_from_symbols() {
    assert_eq!(Tile::from_char('.'), Tile::Empty);
    assert_eq!(Tile::from_char('/'), Tile::Wall);
    assert_eq!(Tile::from_char('C'), Tile::Player(2));
}

#[test]
fn client_map_parses_a_rendering() {
    let map = TileMap::parse(3, 2, ".A//B.").unwrap();
    assert_eq!(map.get(1, 0), Tile::Player(0));
    assert_eq!(map.get(0, 1), Tile::Wall);
    assert_eq!(map.get(1, 1), Tile::Player(1));
    assert!(TileMap::parse(3, 2, ".A/").is_err());
    assert_eq!(TileMap::new(2, 2).get(1, 1), Tile::Empty);
}
