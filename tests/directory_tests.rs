use lobby_directory::address::{Flags, IpAddress, Region};
use lobby_directory::codec::{Filter, GetRequest};
use lobby_directory::database::{
    create, delete, get, init, modify, Database, DatabaseError, Lobby, Page, PAGE_SIZE,
};

fn plain_lobby(last_octet: u8, port: u16, name: &str, players: u8, region: Region) -> Lobby {
    Lobby {
        flags: Flags::new(false, true, false),
        region,
        host_ip: IpAddress::IpV4([10, 0, 0, last_octet]),
        host_port: port,
        max_players: 16,
        lobby_name: String::from(name),
        password: String::from("no digest"),
        current_players: players,
    }
}

fn ready_db() -> Database {
    let mut db = Database::new();
    init(&mut db);
    db
}

fn names(page: &Page) -> Vec<String> {
    page.lobbies.iter().map(|l| l.lobby_name.clone()).collect()
}

fn all_regions() -> Vec<Region> {
    Region::get_regions(0)
}

#[test]
fn uninitialised_store_refuses_everything() {
    let mut db = Database::new();
    let l = plain_lobby(1, 1000, "a", 1, Region::Asia);
    assert_eq!(create(&mut db, Some(l.clone())), Err(DatabaseError::NotInitialised));
    assert_eq!(modify(&mut db, Some(l)), Err(DatabaseError::NotInitialised));
    assert_eq!(
        delete(&mut db, IpAddress::IpV4([10, 0, 0, 1]), 1000, None),
        Err(DatabaseError::NotInitialised)
    );
    let r = get(&db, GetRequest::Search((String::from("a"), 0)));
    assert!(matches!(r, Err(DatabaseError::NotInitialised)));
}

#[test]
fn create_twice_with_same_key_fails() {
    let mut db = ready_db();
    let first = plain_lobby(1, 1000, "first", 1, Region::Asia);
    let second = plain_lobby(1, 1000, "another name", 7, Region::Europe);
    assert_eq!(create(&mut db, Some(first)), Ok(()));
    assert_eq!(create(&mut db, Some(second)), Err(DatabaseError::LobbyAlreadyExists));
    let other_port = plain_lobby(1, 1001, "other port", 1, Region::Asia);
    assert_eq!(create(&mut db, Some(other_port)), Ok(()));
}

#[test]
fn create_without_lobby_reports_hash_failure() {
    let mut db = ready_db();
    assert_eq!(create(&mut db, None), Err(DatabaseError::FailedToHashPassword));
    assert_eq!(modify(&mut db, None), Err(DatabaseError::FailedToHashPassword));
}

#[test]
fn modify_replaces_whole_record() {
    let mut db = ready_db();
    assert_eq!(
        modify(&mut db, Some(plain_lobby(1, 1000, "x", 1, Region::Asia))),
        Err(DatabaseError::LobbyDoesNotExist)
    );
    create(&mut db, Some(plain_lobby(1, 1000, "old", 1, Region::Asia))).unwrap();
    assert_eq!(
        modify(&mut db, Some(plain_lobby(1, 1000, "new", 9, Region::Oceania))),
        Ok(())
    );
    let page = get(&db, GetRequest::Standard((Filter::NameAscending, all_regions(), 0))).unwrap();
    assert_eq!(page.lobbies.len(), 1);
    assert_eq!(page.lobbies[0].lobby_name, "new");
    assert_eq!(page.lobbies[0].current_players, 9);
    assert_eq!(page.lobbies[0].region, Region::Oceania);
}

#[test]
fn delete_checks_credentials() {
    let mut db = ready_db();
    let lobby = Lobby::new(
        Flags::new(false, false, true),
        Region::Europe,
        IpAddress::IpV4([192, 168, 1, 111]),
        25565,
        10,
        String::from("Secret"),
        String::from("password123"),
    )
    .unwrap();
    create(&mut db, Some(lobby)).unwrap();
    let ip = IpAddress::IpV4([192, 168, 1, 111]);
    assert_eq!(
        delete(&mut db, ip, 25565, Some(String::from("wrong"))),
        Err(DatabaseError::InvalidCredentials)
    );
    assert_eq!(
        delete(&mut db, ip, 1, Some(String::from("password123"))),
        Err(DatabaseError::LobbyDoesNotExist)
    );
    assert_eq!(delete(&mut db, ip, 25565, Some(String::from("password123"))), Ok(()));
    assert_eq!(delete(&mut db, ip, 25565, None), Err(DatabaseError::LobbyDoesNotExist));
}

#[test]
fn delete_without_password_skips_check() {
    let mut db = ready_db();
    let lobby = Lobby::new(
        Flags::new(false, false, true),
        Region::Europe,
        IpAddress::IpV4([192, 168, 1, 5]),
        4000,
        10,
        String::from("Guarded"),
        String::from("hunter2"),
    )
    .unwrap();
    create(&mut db, Some(lobby)).unwrap();
    assert_eq!(delete(&mut db, IpAddress::IpV4([192, 168, 1, 5]), 4000, None), Ok(()));
    let page = get(&db, GetRequest::Search((String::new(), 0))).unwrap();
    assert!(page.lobbies.is_empty());
}

#[test]
fn delete_with_unreadable_digest_fails_to_verify() {
    let mut db = ready_db();
    create(&mut db, Some(plain_lobby(3, 3000, "odd", 1, Region::Asia))).unwrap();
    assert_eq!(
        delete(&mut db, IpAddress::IpV4([10, 0, 0, 3]), 3000, Some(String::from("pw"))),
        Err(DatabaseError::FailedToVerifyPassword)
    );
}

#[test]
fn pagination_of_sixteen() {
    let mut db = ready_db();
    for i in 0..16u8 {
        create(&mut db, Some(plain_lobby(i, 2000, &format!("lobby {i:02}"), i, Region::Europe))).unwrap();
    }
    let regions = Region::get_regions(Region::Europe.bit());
    let p0 = get(&db, GetRequest::Standard((Filter::NameAscending, regions.clone(), 0))).unwrap();
    assert_eq!(p0.lobbies.len(), PAGE_SIZE as usize);
    assert_eq!(p0.page_number, 0);
    assert_eq!(p0.total_pages, 1);
    let p1 = get(&db, GetRequest::Standard((Filter::NameAscending, regions.clone(), 1))).unwrap();
    assert_eq!(p1.lobbies.len(), 1);
    assert_eq!(p1.lobbies[0].lobby_name, "lobby 15");
    assert_eq!(p1.total_pages, 1);
    let p2 = get(&db, GetRequest::Standard((Filter::NameAscending, regions, 2))).unwrap();
    assert!(p2.lobbies.is_empty());
}

#[test]
fn page_count_is_kept_in_one_byte() {
    let mut db = ready_db();
    for i in 0..300u16 {
        let l = Lobby {
            host_ip: IpAddress::IpV4([10, 1, (i >> 8) as u8, (i & 0xFF) as u8]),
            ..plain_lobby(0, 7000, "many", 1, Region::Asia)
        };
        create(&mut db, Some(l)).unwrap();
    }
    let page = get(&db, GetRequest::Search((String::from("MANY"), 19))).unwrap();
    // 300 matches are counted as 300 % 256 = 44, so 44 / 15 = 2 pages.
    assert_eq!(page.total_pages, 2);
    assert_eq!(page.lobbies.len(), 15);
    let last = get(&db, GetRequest::Search((String::from("many"), 20))).unwrap();
    assert_eq!(last.lobbies.len(), 0);
}

#[test]
fn region_filter_and_name_order_ignore_case() {
    let mut db = ready_db();
    create(&mut db, Some(plain_lobby(1, 1, "bravo", 3, Region::Europe))).unwrap();
    create(&mut db, Some(plain_lobby(2, 1, "Alpha", 5, Region::Africa))).unwrap();
    create(&mut db, Some(plain_lobby(3, 1, "charlie", 1, Region::Europe))).unwrap();
    create(&mut db, Some(plain_lobby(4, 1, "Delta", 2, Region::Asia))).unwrap();
    let mask = Region::Africa.bit() | Region::Europe.bit();
    let asc = get(&db, GetRequest::Standard((Filter::NameAscending, Region::get_regions(mask), 0))).unwrap();
    assert_eq!(names(&asc), vec!["Alpha", "bravo", "charlie"]);
    let desc = get(&db, GetRequest::Standard((Filter::NameDescending, Region::get_regions(mask), 0))).unwrap();
    assert_eq!(names(&desc), vec!["charlie", "bravo", "Alpha"]);
    assert_eq!(asc.total_pages, 0);
}

#[test]
fn player_count_order_is_stable() {
    let mut db = ready_db();
    create(&mut db, Some(plain_lobby(1, 1, "a", 4, Region::Asia))).unwrap();
    create(&mut db, Some(plain_lobby(2, 1, "b", 2, Region::Asia))).unwrap();
    create(&mut db, Some(plain_lobby(3, 1, "c", 4, Region::Asia))).unwrap();
    create(&mut db, Some(plain_lobby(4, 1, "d", 1, Region::Asia))).unwrap();
    let asc = get(&db, GetRequest::Standard((Filter::PlayerCountAscending, all_regions(), 0))).unwrap();
    assert_eq!(names(&asc), vec!["d", "b", "a", "c"]);
    let desc = get(&db, GetRequest::Standard((Filter::PlayerCountDescending, all_regions(), 0))).unwrap();
    assert_eq!(names(&desc), vec!["a", "c", "b", "d"]);
}

#[test]
fn search_is_case_insensitive_substring() {
    let mut db = ready_db();
    create(&mut db, Some(plain_lobby(1, 1, "Test Lobby!", 1, Region::Oceania))).unwrap();
    create(&mut db, Some(plain_lobby(2, 1, "Other game", 1, Region::Asia))).unwrap();
    let page = get(&db, GetRequest::Search((String::from("lobby"), 0))).unwrap();
    assert_eq!(names(&page), vec!["Test Lobby!"]);
    let none = get(&db, GetRequest::Search((String::from("lobbyx"), 0))).unwrap();
    assert!(none.lobbies.is_empty());
}

#[test]
fn search_filter_in_standard_listing_is_refused() {
    let db = ready_db();
    let r = get(&db, GetRequest::Standard((Filter::Search, all_regions(), 0)));
    assert!(matches!(r, Err(DatabaseError::InvalidFilter)));
}

#[test]
fn serial_creates_of_distinct_keys_all_succeed() {
    let mut db = ready_db();
    for i in 0..8u8 {
        assert_eq!(create(&mut db, Some(plain_lobby(i, 5000, "room", 1, Region::Asia))), Ok(()));
    }
    let page = get(&db, GetRequest::Search((String::from("room"), 0))).unwrap();
    assert_eq!(page.lobbies.len(), 8);
}

#[test]
fn serial_creates_of_one_key_succeed_once() {
    let mut db = ready_db();
    let results: Vec<_> = (0..8u8)
        .map(|i| create(&mut db, Some(plain_lobby(9, 5000, &format!("room {i}"), i, Region::Asia))))
        .collect();
    assert_eq!(results.iter().filter(|r| r.is_ok()).count(), 1);
    assert_eq!(
        results.iter().filter(|r| **r == Err(DatabaseError::LobbyAlreadyExists)).count(),
        7
    );
}

#[test]
fn store_error_codes() {
    assert_eq!(DatabaseError::NotInitialised.code(), 50);
    assert_eq!(DatabaseError::LobbyAlreadyExists.code(), 51);
    assert_eq!(DatabaseError::LobbyDoesNotExist.code(), 52);
    assert_eq!(DatabaseError::FailedToHashPassword.code(), 53);
    assert_eq!(DatabaseError::FailedToVerifyPassword.code(), 54);
    assert_eq!(DatabaseError::InvalidCredentials.code(), 55);
    assert_eq!(DatabaseError::InvalidFilter.code(), 56);
}

#[test]
fn new_lobby_stores_digest_not_plaintext() {
    let l = Lobby::new(
        Flags::new(true, false, true),
        Region::Asia,
        IpAddress::IpV6([0x2001, 0xdb8, 0, 0, 0, 0, 0, 1]),
        80,
        4,
        String::from("v6"),
        String::from("pw"),
    )
    .unwrap();
    assert_eq!(l.current_players, 1);
    assert_eq!(l.password.len(), 60);
    assert_ne!(l.password, "pw");
    assert!(bcrypt::verify("pw", &l.password).unwrap());
}
