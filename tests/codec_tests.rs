use lobby_directory::address::{make_key, Flags, IpAddress, ParseError, Region};
use lobby_directory::codec::{
    create_lobby, decode_message, destroy_lobby, modify_lobby, parse_message, Filter, GetRequest,
    ParseOutput, Request, Serialise, Types,
};
use lobby_directory::database::{init, Database, Lobby, Page};
use lobby_directory::service::{handle_message, receive_step, ReceiveStep, RECV_TIME_OUT_MS, SUCCESS};

fn text(s: &str) -> Vec<u8> {
    let mut out = vec![s.len() as u8];
    out.extend(s.bytes());
    out
}

fn create_message(header: u8, flags: u8, addr: &[u8], port: u16, region: u8, name: &str, pw: &str) -> Vec<u8> {
    let mut m = vec![header, flags];
    m.extend_from_slice(addr);
    m.push((port >> 8) as u8);
    m.push((port & 0xFF) as u8);
    m.push(region);
    m.push(8);
    m.extend(text(name));
    m.extend(text(pw));
    m
}

const HOME: [u8; 4] = [192, 168, 1, 111];

#[test]
fn create_round_trip_keeps_every_field() {
    let m = create_message(0x10, 0b110, &HOME, 7777, 8, "Round Trip", "s3cret");
    let out = parse_message(&m, IpAddress::IpV4(HOME)).unwrap();
    let lobby = match out {
        ParseOutput::Create(Some(l)) => l,
        other => panic!("unexpected {other:?}"),
    };
    assert_eq!(lobby.flags, Flags::new(false, true, true));
    assert_eq!(lobby.region, Region::NorthAmerica);
    assert_eq!(lobby.host_ip, IpAddress::IpV4(HOME));
    assert_eq!(lobby.host_port, 7777);
    assert_eq!(lobby.max_players, 8);
    assert_eq!(lobby.lobby_name, "Round Trip");
    assert_eq!(lobby.current_players, 1);
    assert_ne!(lobby.password, "s3cret");
    assert!(bcrypt::verify("s3cret", &lobby.password).unwrap());
}

#[test]
fn flags_bit_zero_is_only_read_from_byte() {
    // bit 0 announces IPv6, so the address is sixteen bytes.
    let addr6: Vec<u8> = vec![0x20, 0x01, 0x0d, 0xb8, 0, 0, 0, 0, 0, 0, 0, 0, 0, 0, 0, 1];
    let m = create_message(0x10, 0b001, &addr6, 1, 1, "six", "pw");
    let sender = IpAddress::IpV6([0x2001, 0xdb8, 0, 0, 0, 0, 0, 1]);
    match decode_message(&m, &sender).unwrap() {
        Request::Create(l) => {
            assert_eq!(l.host_ip, sender);
            assert_eq!(l.password, "pw");
            assert_eq!(l.lobby_name, "six");
        }
        other => panic!("unexpected {other:?}"),
    }
}

#[test]
fn spoofed_create_and_destroy_are_refused() {
    let m = create_message(0x10, 0, &[10, 0, 0, 9], 1, 1, "x", "y");
    assert_eq!(parse_message(&m, IpAddress::IpV4(HOME)).unwrap_err(), ParseError::MismatchedIP);
    let d = vec![0x40, 0, 10, 0, 0, 9, 0, 1];
    assert_eq!(parse_message(&d, IpAddress::IpV4(HOME)).unwrap_err(), ParseError::MismatchedIP);
    let v6_sender = IpAddress::IpV6([0, 0, 0, 0, 0, 0, 0, 1]);
    assert_eq!(parse_message(&d, v6_sender).unwrap_err(), ParseError::MismatchedIP);
}

#[test]
fn header_errors() {
    let ip = IpAddress::IpV4(HOME);
    assert_eq!(parse_message(&[], ip).unwrap_err(), ParseError::EmptyMessage);
    assert_eq!(parse_message(&[0x11], ip).unwrap_err(), ParseError::OutOfDate);
    assert_eq!(parse_message(&[0x30], ip).unwrap_err(), ParseError::InvalidType);
    assert_eq!(parse_message(&[0x00], ip).unwrap_err(), ParseError::InvalidType);
    assert_eq!(parse_message(&[0x10], ip).unwrap_err(), ParseError::MissingMessagePart);
}

#[test]
fn record_errors() {
    let ip = IpAddress::IpV4(HOME);
    let bad_region = create_message(0x10, 0, &HOME, 1, 5, "x", "y");
    assert_eq!(parse_message(&bad_region, ip).unwrap_err(), ParseError::InvalidRegion);
    let long = "n".repeat(33);
    let bad_name = create_message(0x10, 0, &HOME, 1, 1, &long, "y");
    assert_eq!(parse_message(&bad_name, ip).unwrap_err(), ParseError::InvalidName);
    let mut cut = create_message(0x10, 0, &HOME, 1, 1, "abc", "y");
    cut.truncate(cut.len() - 3);
    assert_eq!(parse_message(&cut, ip).unwrap_err(), ParseError::MissingMessagePart);
    let no_password = {
        let mut m = create_message(0x10, 0, &HOME, 1, 1, "abc", "y");
        m.truncate(m.len() - 2);
        m
    };
    assert_eq!(parse_message(&no_password, ip).unwrap_err(), ParseError::MissingMessagePart);
    let modify_without_count = create_message(0x20, 0, &HOME, 1, 1, "abc", "y");
    assert_eq!(
        parse_message(&modify_without_count, ip).unwrap_err(),
        ParseError::MissingMessagePart
    );
    assert_eq!(parse_message(&[0x80, 7, 0, 0], ip).unwrap_err(), ParseError::InvalidFilter);
}

#[test]
fn parse_error_codes() {
    assert_eq!(ParseError::EmptyMessage.code(), 40);
    assert_eq!(ParseError::InvalidType.code(), 41);
    assert_eq!(ParseError::MissingMessagePart.code(), 42);
    assert_eq!(ParseError::InvalidRegion.code(), 43);
    assert_eq!(ParseError::InvalidName.code(), 44);
    assert_eq!(ParseError::MismatchedIP.code(), 45);
    assert_eq!(ParseError::OutOfDate.code(), 46);
    assert_eq!(ParseError::InvalidFilter.code(), 47);
}

#[test]
fn get_requests_decode() {
    let ip = IpAddress::IpV4(HOME);
    let standard = parse_message(&[0x80, 3, 0x05, 2], ip).unwrap();
    assert_eq!(
        standard,
        ParseOutput::Get(GetRequest::Standard((
            Filter::PlayerCountDescending,
            vec![Region::Africa, Region::Europe],
            2
        )))
    );
    let mut search = vec![0x80, 255];
    search.extend(text("LoBbY"));
    search.push(4);
    assert_eq!(
        parse_message(&search, ip).unwrap(),
        ParseOutput::Get(GetRequest::Search((String::from("LoBbY"), 4)))
    );
    search.pop();
    assert_eq!(parse_message(&search, ip).unwrap_err(), ParseError::MissingMessagePart);
    assert_eq!(parse_message(&[0x80, 0, 1], ip).unwrap_err(), ParseError::MissingMessagePart);
}

#[test]
fn region_masks() {
    assert_eq!(
        Region::get_regions(0x00),
        vec![
            Region::Africa,
            Region::Asia,
            Region::Europe,
            Region::NorthAmerica,
            Region::SouthAmerica,
            Region::Oceania
        ]
    );
    assert_eq!(Region::get_regions(0x05), vec![Region::Africa, Region::Europe]);
    assert_eq!(Region::get_regions(0xC0).len(), 6);
    assert_eq!(Region::get_regions(0x60), vec![Region::Oceania]);
    assert_eq!(Region::from_byte(16), Ok(Region::SouthAmerica));
    assert_eq!(Region::from_byte(3), Err(ParseError::InvalidRegion));
}

#[test]
fn message_kinds() {
    assert_eq!(Types::from_nibble(1), Types::Create);
    assert_eq!(Types::from_nibble(2), Types::Modify);
    assert_eq!(Types::from_nibble(4), Types::Destroy);
    assert_eq!(Types::from_nibble(8), Types::Get);
    assert_eq!(Types::from_nibble(3), Types::Unknown);
}

#[test]
fn body_decoders() {
    let ip = IpAddress::IpV4(HOME);
    let m = create_message(0x10, 0, &HOME, 9, 2, "body", "pw");
    let l = create_lobby(&m[1..], ip).unwrap();
    assert_eq!(l.region, Region::Asia);
    assert_eq!(l.host_port, 9);
    let mut mm = m.clone();
    mm.push(6);
    let l = modify_lobby(&mm[1..], ip).unwrap();
    assert_eq!(l.current_players, 6);
    let d = destroy_lobby(&[0, 192, 168, 1, 111, 0, 9], ip).unwrap();
    assert_eq!(d, (ip, 9, None));
}

#[test]
fn keys_and_address_text() {
    assert_eq!(make_key(&IpAddress::IpV4(HOME), 25565), "192.168.1.111/4:25565");
    assert_eq!(
        IpAddress::IpV6([0x2001, 0xdb8, 0, 0, 0, 0, 0xff00, 1]).to_string(),
        "2001:db8:0:0:0:0:ff00:1/6"
    );
    assert_eq!(IpAddress::IpV4([0, 0, 0, 0]).to_string(), "0.0.0.0/4");
}

#[test]
fn scalar_and_text_encodings() {
    assert_eq!(0x1234u16.serialise(), vec![0x12, 0x34]);
    assert_eq!(String::from("ab").serialise(), vec![2, b'a', b'b']);
}

fn sample_lobby() -> Lobby {
    Lobby {
        flags: Flags::new(false, true, true),
        region: Region::Europe,
        host_ip: IpAddress::IpV4([1, 2, 3, 4]),
        host_port: 0x0102,
        max_players: 9,
        lobby_name: String::from("Hi"),
        password: String::from("digest"),
        current_players: 3,
    }
}

#[test]
fn page_encoding() {
    let page = Page::new(vec![sample_lobby()], 1, 2);
    let record = vec![13, 0b110, 4, 1, 2, 3, 4, 1, 2, 9, 2, b'H', b'i', 3];
    let mut expected = vec![0, 14];
    expected.extend(record.clone());
    expected.push(1);
    expected.push(2);
    assert_eq!(page.serialise(), expected);
    assert_eq!((&sample_lobby()).serialise(), record);
    let empty = Page::new(Vec::new(), 0, 0);
    assert_eq!(empty.serialise(), vec![0, 0, 0, 0]);
}

#[test]
fn handle_message_end_to_end() {
    let mut db = Database::new();
    let ip = IpAddress::IpV4(HOME);
    assert_eq!(handle_message(&mut db, &[0x80, 0, 0, 0], ip), vec![50]);
    init(&mut db);
    assert_eq!(handle_message(&mut db, &[], ip), vec![40]);
    let m = create_message(0x10, 0b100, &HOME, 25565, 32, "Test Lobby!", "password123");
    assert_eq!(handle_message(&mut db, &m, ip), vec![SUCCESS]);
    assert_eq!(handle_message(&mut db, &m, ip), vec![51]);
    let mut search = vec![0x80, 255];
    search.extend(text("lobby"));
    search.push(0);
    let r = handle_message(&mut db, &search, ip);
    assert_eq!(r[0], SUCCESS);
    let body_len = ((r[1] as usize) << 8) | r[2] as usize;
    assert_eq!(body_len, r.len() - 3);
    // one record: length prefix of the block, the record, page number and page count
    assert_eq!(r[3], 0);
    assert_eq!(r[4] as usize, body_len - 4);
    assert_eq!(r[r.len() - 2], 0);
    assert_eq!(r[r.len() - 1], 0);
    let mut wrong = vec![0x40, 0, 192, 168, 1, 111, 0x63, 0xDD];
    wrong.extend(text("nope"));
    assert_eq!(handle_message(&mut db, &wrong, ip), vec![55]);
    let mut right = vec![0x40, 0, 192, 168, 1, 111, 0x63, 0xDD];
    right.extend(text("password123"));
    assert_eq!(handle_message(&mut db, &right, ip), vec![SUCCESS]);
    assert_eq!(handle_message(&mut db, &right, ip), vec![52]);
}

#[test]
fn ipv6_octets_group_in_pairs() {
    let o = [0x20, 0x01, 0x0d, 0xb8, 0, 0, 0, 0, 0, 0, 0, 0, 0xff, 0x00, 0, 1];
    assert_eq!(
        IpAddress::from_ipv6_octets(o),
        IpAddress::IpV6([0x2001, 0xdb8, 0, 0, 0, 0, 0xff00, 1])
    );
}

#[test]
fn receive_deadline_steps() {
    assert_eq!(receive_step(true, 10_000), ReceiveStep::Collect);
    assert_eq!(receive_step(false, RECV_TIME_OUT_MS + 1), ReceiveStep::GiveUp);
    assert_eq!(receive_step(false, RECV_TIME_OUT_MS), ReceiveStep::Wait);
    assert_eq!(receive_step(false, 0), ReceiveStep::Wait);
}

#[test]
fn default_address_is_unspecified_ipv4() {
    assert_eq!(IpAddress::default(), IpAddress::IpV4([0, 0, 0, 0]));
}
