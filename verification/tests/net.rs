use kvs::addr_parser::{parse_port, split_address, IntErrorKind};
use kvs::server::{client_reply, reply_bytes, select_engine, Reply};
use kvs::{Command, MyError};

#[test]
fn split_address_one_colon() {
    assert_eq!(
        split_address("127.0.0.1:4000"),
        Some(("127.0.0.1".to_string(), "4000".to_string()))
    );
    assert_eq!(split_address(":"), Some((String::new(), String::new())));
    assert_eq!(split_address("127.0.0.1"), None);
    assert_eq!(split_address("::1:4000"), None);
    assert_eq!(split_address(""), None);
}

#[test]
fn parse_port_like_std() {
    for s in ["4000", "0", "65535", "65536", "", "+", "-", "+80", "-5", "99999x", "6553x", "00080", "4 000", "é1"] {
        let ours = parse_port(s);
        let std = s.parse::<u16>();
        match (ours, std) {
            (Ok(a), Ok(b)) => assert_eq!(a, b, "{}", s),
            (Err(e), Err(f)) => {
                let kind = match f.kind() {
                    std::num::IntErrorKind::Empty => IntErrorKind::Empty,
                    std::num::IntErrorKind::InvalidDigit => IntErrorKind::InvalidDigit,
                    std::num::IntErrorKind::PosOverflow => IntErrorKind::PosOverflow,
                    _ => panic!("unexpected kind"),
                };
                assert_eq!(e, kind, "{}", s);
            }
            _ => panic!("differs on {}", s),
        }
    }
}

#[test]
fn parse_port_values() {
    assert_eq!(parse_port("4000"), Ok(4000));
    assert_eq!(parse_port("+80"), Ok(80));
    assert_eq!(parse_port("65536"), Err(IntErrorKind::PosOverflow));
    assert_eq!(parse_port(""), Err(IntErrorKind::Empty));
    assert_eq!(parse_port("-"), Err(IntErrorKind::InvalidDigit));
    assert_eq!(parse_port("99999x"), Err(IntErrorKind::PosOverflow));
    assert_eq!(parse_port("6553x"), Err(IntErrorKind::InvalidDigit));
}

#[test]
fn engine_selection() {
    assert_eq!(select_engine(Some("kvs".to_string()), Some("kvs".to_string())), Ok("kvs".to_string()));
    assert_eq!(select_engine(Some("kvs".to_string()), Some("sled".to_string())), Err(MyError::WrongEngine));
    assert_eq!(select_engine(Some("sled".to_string()), None), Ok("sled".to_string()));
    assert_eq!(select_engine(None, Some("sled".to_string())), Ok("sled".to_string()));
    assert_eq!(select_engine(None, None), Ok("kvs".to_string()));
}

#[test]
fn replies_to_clients() {
    let get = Command::Get { key: "k".to_string() };
    let set = Command::set("k".to_string(), "v".to_string());
    let rm = Command::rm("k".to_string());
    assert_eq!(client_reply(&get, Ok(Some("v".to_string()))), Ok(Reply::Value("v".to_string())));
    assert_eq!(client_reply(&get, Ok(None)), Ok(Reply::KeyNotFound));
    assert_eq!(client_reply(&get, Err(MyError::UnexpectedCommand)), Err(MyError::UnexpectedCommand));
    assert_eq!(client_reply(&set, Ok(None)), Ok(Reply::Nothing));
    assert_eq!(client_reply(&set, Err(MyError::Write("disk".to_string()))), Err(MyError::Write("disk".to_string())));
    assert_eq!(client_reply(&rm, Ok(None)), Ok(Reply::Nothing));
    assert_eq!(client_reply(&rm, Err(MyError::KeyNotFound)), Ok(Reply::KeyNotFound));
}

#[test]
fn reply_encodings() {
    assert_eq!(reply_bytes(&Reply::Nothing).unwrap(), b"\n".to_vec());
    assert_eq!(reply_bytes(&Reply::Value("a\"b\n".to_string())).unwrap(), b"\"a\\\"b\\n\"\n".to_vec());
    assert_eq!(
        reply_bytes(&Reply::KeyNotFound).unwrap(),
        b"[75,101,121,32,110,111,116,32,102,111,117,110,100]\n".to_vec()
    );
}

#[test]
fn address_round_trip() {
    for (ip, port) in [("127.0.0.1", 4000u16), ("10.1.2.3", 0), ("0.0.0.0", 65535), ("192.168.0.1", 80)] {
        let text = format!("{}:{}", ip, port);
        let (a, p) = split_address(&text).unwrap();
        assert_eq!(a, ip);
        assert_eq!(parse_port(&p), Ok(port));
    }
}

#[test]
fn engine_is_remembered() {
    let first = select_engine(None, Some("sled".to_string())).unwrap();
    assert_eq!(select_engine(Some(first.clone()), None), Ok("sled".to_string()));
    assert_eq!(select_engine(Some(first.clone()), Some("sled".to_string())), Ok("sled".to_string()));
    assert_eq!(select_engine(Some(first), Some("kvs".to_string())), Err(MyError::WrongEngine));
}
