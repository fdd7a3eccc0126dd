use vstd::prelude::*;

use crate::address::{AddrModel, Flags, IpAddress, Region};
use crate::credential::{hash_password, password_check, verify_password, HASH_COST};
use crate::codec::{Filter, GetRequest, GetView};
use crate::query::{
    all_wf, lemma_listing_wf, listing, make_page, page_count, page_slice, select_named, select_regions,
    sort_lobbies,
};
use crate::text::{chars_of, fits_bytes, lowercase};

verus! {

/// Longest lobby name or password, in characters.
pub const MAX_TEXT_LEN: usize = 32;

/// Lobbies on one page of a listing.
pub const PAGE_SIZE: u8 = 15;

/// Why the directory refused an operation.  Each kind maps to its own status code.
#[derive(Clone, Copy, Debug, PartialEq, Eq, Structural)]
pub enum DatabaseError {
    NotInitialised,
    LobbyAlreadyExists,
    LobbyDoesNotExist,
    FailedToHashPassword,
    FailedToVerifyPassword,
    InvalidCredentials,
    InvalidFilter,
}

impl DatabaseError {
    pub open spec fn spec_code(self) -> u8 {
        match self {
            DatabaseError::NotInitialised => 50,
            DatabaseError::LobbyAlreadyExists => 51,
            DatabaseError::LobbyDoesNotExist => 52,
            DatabaseError::FailedToHashPassword => 53,
            DatabaseError::FailedToVerifyPassword => 54,
            DatabaseError::InvalidCredentials => 55,
            DatabaseError::InvalidFilter => 56,
        }
    }

    /// The status byte that reports this error on the wire.
    #[verifier::when_used_as_spec(spec_code)]
    pub fn code(self) -> (r: u8)
        ensures
            r == self.spec_code(),
    {
        match self {
            DatabaseError::NotInitialised => 50,
            DatabaseError::LobbyAlreadyExists => 51,
            DatabaseError::LobbyDoesNotExist => 52,
            DatabaseError::FailedToHashPassword => 53,
            DatabaseError::FailedToVerifyPassword => 54,
            DatabaseError::InvalidCredentials => 55,
            DatabaseError::InvalidFilter => 56,
        }
    }
}

/// A registered game session.  `password` holds a bcrypt digest, never the
/// plaintext.
#[derive(Clone, Debug)]
pub struct Lobby {
    pub flags: Flags,
    pub region: Region,
    pub host_ip: IpAddress,
    pub host_port: u16,
    pub max_players: u8,
    pub lobby_name: String,
    pub password: String,
    pub current_players: u8,
}

/// The identity of a lobby in the directory: its address and port.
pub open spec fn key_of(l: Lobby) -> (AddrModel, u16) {
    (l.host_ip@, l.host_port)
}

impl Lobby {
    /// A lobby that can be written on the wire: a name of at most 32
    /// one-byte characters.
    pub open spec fn wf(&self) -> bool {
        self.lobby_name@.len() <= MAX_TEXT_LEN && fits_bytes(self.lobby_name@)
    }

    /// Every field but the password digest agrees.
    pub open spec fn same_record(&self, other: &Lobby) -> bool {
        &&& self.flags == other.flags
        &&& self.region == other.region
        &&& self.host_ip@ == other.host_ip@
        &&& self.host_port == other.host_port
        &&& self.max_players == other.max_players
        &&& self.lobby_name@ == other.lobby_name@
        &&& self.current_players == other.current_players
    }

    /// A new lobby with one player, whose password is stored as a fresh
    /// digest; `None` where hashing failed.
    pub fn new(
        flags: Flags,
        region: Region,
        host_ip: IpAddress,
        host_port: u16,
        max_players: u8,
        lobby_name: String,
        password: String,
    ) -> (r: Option<Self>)
        ensures
            r matches Some(l) ==> {
                &&& l.flags == flags
                &&& l.region == region
                &&& l.host_ip == host_ip
                &&& l.host_port == host_port
                &&& l.max_players == max_players
                &&& l.lobby_name == lobby_name
                &&& l.current_players == 1
                &&& l.password@.len() == 60
                &&& password_check(password@, l.password@) == Some(true)
            },
    {
        match hash_password(&password, HASH_COST) {
            Ok(digest) => Some(
                Lobby {
                    flags,
                    region,
                    host_ip,
                    host_port,
                    max_players,
                    lobby_name,
                    password: digest,
                    current_players: 1,
                },
            ),
            Err(_) => None,
        }
    }

    /// Sets the number of players now in the lobby.
    pub fn set_player_count(&mut self, count: u8)
        ensures
            *final(self) == (Lobby { current_players: count, ..*old(self) }),
    {
        self.current_players = count;
    }

    /// A copy of the whole record.
    pub fn duplicate(&self) -> (r: Lobby)
        ensures
            r == *self,
    {
        Lobby {
            flags: self.flags,
            region: self.region,
            host_ip: self.host_ip,
            host_port: self.host_port,
            max_players: self.max_players,
            lobby_name: self.lobby_name.clone(),
            password: self.password.clone(),
            current_players: self.current_players,
        }
    }
}

impl PartialEq for Lobby {
    fn eq(&self, other: &Lobby) -> (r: bool) {
        self.flags == other.flags && self.region == other.region && self.host_ip.same_as(
            &other.host_ip,
        ) && self.host_port == other.host_port && self.max_players == other.max_players
            && self.lobby_name == other.lobby_name && self.current_players == other.current_players
    }
}

impl vstd::std_specs::cmp::PartialEqSpecImpl for Lobby {
    open spec fn obeys_eq_spec() -> bool {
        true
    }

    open spec fn eq_spec(&self, other: &Lobby) -> bool {
        self.same_record(other)
    }
}

/// Some lobby of `s` has this address and port.
pub open spec fn has_key(s: Seq<Lobby>, ip: AddrModel, port: u16) -> bool {
    exists|i: int| 0 <= i < s.len() && #[trigger] key_of(s[i]) == (ip, port)
}

/// Where the lobby with this address and port stands in `s`.
pub open spec fn key_pos(s: Seq<Lobby>, ip: AddrModel, port: u16) -> int {
    choose|i: int| 0 <= i < s.len() && #[trigger] key_of(s[i]) == (ip, port)
}

/// No two lobbies share an address and port, and each can be written on the wire.
pub open spec fn table_wf(s: Seq<Lobby>) -> bool {
    &&& forall|i: int, j: int| 0 <= i < j < s.len() ==> key_of(#[trigger] s[i]) != key_of(#[trigger] s[j])
    &&& forall|i: int| 0 <= i < s.len() ==> (#[trigger] s[i]).wf()
}

/// Outcome of `create` on a directory state: the result and the next state.
pub open spec fn create_spec(t: Option<Seq<Lobby>>, lobby: Option<Lobby>) -> (Result<(), DatabaseError>, Option<Seq<Lobby>>) {
    match lobby {
        None => (Err(DatabaseError::FailedToHashPassword), t),
        Some(l) => match t {
            None => (Err(DatabaseError::NotInitialised), t),
            Some(s) => if has_key(s, l.host_ip@, l.host_port) {
                (Err(DatabaseError::LobbyAlreadyExists), t)
            } else {
                (Ok(()), Some(s.push(l)))
            },
        },
    }
}

/// Outcome of `modify` on a directory state: the record under the lobby's key
/// is replaced whole.
pub open spec fn modify_spec(t: Option<Seq<Lobby>>, lobby: Option<Lobby>) -> (Result<(), DatabaseError>, Option<Seq<Lobby>>) {
    match lobby {
        None => (Err(DatabaseError::FailedToHashPassword), t),
        Some(l) => match t {
            None => (Err(DatabaseError::NotInitialised), t),
            Some(s) => if has_key(s, l.host_ip@, l.host_port) {
                (Ok(()), Some(s.update(key_pos(s, l.host_ip@, l.host_port), l)))
            } else {
                (Err(DatabaseError::LobbyDoesNotExist), t)
            },
        },
    }
}

/// Outcome of `delete` on a directory state.  An absent password skips the
/// credential check.
pub open spec fn delete_spec(t: Option<Seq<Lobby>>, ip: AddrModel, port: u16, password: Option<Seq<char>>) -> (Result<(), DatabaseError>, Option<Seq<Lobby>>) {
    match t {
        None => (Err(DatabaseError::NotInitialised), t),
        Some(s) => if !has_key(s, ip, port) {
            (Err(DatabaseError::LobbyDoesNotExist), t)
        } else {
            let i = key_pos(s, ip, port);
            match password {
                None => (Ok(()), Some(s.remove(i))),
                Some(pw) => match password_check(pw, s[i].password@) {
                    None => (Err(DatabaseError::FailedToVerifyPassword), t),
                    Some(false) => (Err(DatabaseError::InvalidCredentials), t),
                    Some(true) => (Ok(()), Some(s.remove(i))),
                },
            }
        },
    }
}

/// The directory: lobbies keyed by address and port, or nothing before `init`.
#[derive(Debug)]
pub struct Database {
    table: Option<Vec<Lobby>>,
}

impl View for Database {
    type V = Option<Seq<Lobby>>;

    closed spec fn view(&self) -> Option<Seq<Lobby>> {
        match self.table {
            Some(v) => Some(v@),
            None => None,
        }
    }
}

impl Database {
    pub open spec fn wf(&self) -> bool {
        self@ matches Some(s) ==> table_wf(s)
    }

    /// A directory that has not been initialised: every operation fails.
    pub fn new() -> (r: Database)
        ensures
            r@ is None,
            r.wf(),
    {
        Database { table: None }
    }

    /// Where the lobby with this address and port stands, if anywhere.
    fn find(&self, ip: &IpAddress, port: u16) -> (r: Option<usize>)
        requires
            self@ is Some,
        ensures
            r is None <==> !has_key(self@->Some_0, ip@, port),
            r matches Some(i) ==> i < self@->Some_0.len() && key_of(self@->Some_0[i as int]) == (ip@, port),
    {
        let v = self.table.as_ref().unwrap();
        let mut i: usize = 0;
        while i < v.len()
            invariant
                self@ == Some(v@),
                i <= v@.len(),
                forall|k: int| 0 <= k < i ==> key_of(#[trigger] v@[k]) != (ip@, port),
            decreases v@.len() - i,
        {
            if v[i].host_port == port && v[i].host_ip.same_as(ip) {
                assert(key_of(v@[i as int]) == (ip@, port));
                return Some(i);
            }
            i += 1;
        }
        None
    }
}

/// Where a key stands is the one index holding it.
proof fn lemma_key_pos(s: Seq<Lobby>, i: int)
    requires
        table_wf(s),
        0 <= i < s.len(),
    ensures
        has_key(s, s[i].host_ip@, s[i].host_port),
        key_pos(s, s[i].host_ip@, s[i].host_port) == i,
{
    assert(key_of(s[i]) == (s[i].host_ip@, s[i].host_port));
    let j = key_pos(s, s[i].host_ip@, s[i].host_port);
    if j != i {
        if j < i {
            assert(key_of(s[j]) != key_of(s[i]));
        } else {
            assert(key_of(s[i]) != key_of(s[j]));
        }
    }
}

/// Empties the directory, making it ready for use.
pub fn init(db: &mut Database)
    ensures
        final(db)@ == Some(Seq::<Lobby>::empty()),
        final(db).wf(),
{
    db.table = Some(Vec::new());
    assert(db@ =~= Some(Seq::<Lobby>::empty()));
}

/// Registers a lobby under its address and port, unless one is there already.
pub fn create(db: &mut Database, lobby: Option<Lobby>) -> (r: Result<(), DatabaseError>)
    requires
        old(db).wf(),
        lobby matches Some(l) ==> l.wf(),
    ensures
        final(db).wf(),
        (r, final(db)@) == create_spec(old(db)@, lobby),
{
    let l = match lobby {
        None => return Err(DatabaseError::FailedToHashPassword),
        Some(l) => l,
    };
    if db.table.is_none() {
        return Err(DatabaseError::NotInitialised);
    }
    if db.find(&l.host_ip, l.host_port).is_some() {
        return Err(DatabaseError::LobbyAlreadyExists);
    }
    let ghost s = db@->Some_0;
    let mut table = db.table.take().unwrap();
    table.push(l);
    db.table = Some(table);
    proof {
        assert(db@->Some_0 =~= s.push(l));
        assert forall|i: int, j: int| 0 <= i < j < s.len() + 1 implies key_of(#[trigger] s.push(l)[i]) != key_of(#[trigger] s.push(l)[j]) by {
            if j == s.len() {
                assert(s.push(l)[i] == s[i]);
            }
        }
    }
    Ok(())
}

/// Replaces the whole record stored under the lobby's address and port.
pub fn modify(db: &mut Database, lobby: Option<Lobby>) -> (r: Result<(), DatabaseError>)
    requires
        old(db).wf(),
        lobby matches Some(l) ==> l.wf(),
    ensures
        final(db).wf(),
        (r, final(db)@) == modify_spec(old(db)@, lobby),
{
    let l = match lobby {
        None => return Err(DatabaseError::FailedToHashPassword),
        Some(l) => l,
    };
    if db.table.is_none() {
        return Err(DatabaseError::NotInitialised);
    }
    let i = match db.find(&l.host_ip, l.host_port) {
        None => return Err(DatabaseError::LobbyDoesNotExist),
        Some(i) => i,
    };
    let ghost s = db@->Some_0;
    proof {
        lemma_key_pos(s, i as int);
    }
    let mut table = db.table.take().unwrap();
    table.set(i, l);
    db.table = Some(table);
    proof {
        assert(db@->Some_0 =~= s.update(i as int, l));
        assert forall|a: int, b: int| 0 <= a < b < s.len() implies key_of(#[trigger] s.update(i as int, l)[a]) != key_of(#[trigger] s.update(i as int, l)[b]) by {
            if a != i && b != i {
                assert(key_of(s[a]) != key_of(s[b]));
            } else if a == i {
                assert(key_of(s[i as int]) != key_of(s[b]));
            } else {
                assert(key_of(s[a]) != key_of(s[i as int]));
            }
        }
    }
    Ok(())
}

/// Removes the lobby at this address and port.  A supplied password must
/// match the stored digest; an absent one skips the check.
pub fn delete(db: &mut Database, host_ip: IpAddress, port: u16, password: Option<String>) -> (r: Result<(), DatabaseError>)
    requires
        old(db).wf(),
    ensures
        final(db).wf(),
        (r, final(db)@) == delete_spec(old(db)@, host_ip@, port, match password {
            Some(p) => Some(p@),
            None => None,
        }),
{
    if db.table.is_none() {
        return Err(DatabaseError::NotInitialised);
    }
    let i = match db.find(&host_ip, port) {
        None => return Err(DatabaseError::LobbyDoesNotExist),
        Some(i) => i,
    };
    let ghost s = db@->Some_0;
    proof {
        lemma_key_pos(s, i as int);
    }
    if let Some(pw) = password {
        let checked = verify_password(&pw, &db.table.as_ref().unwrap()[i].password);
        match checked {
            Err(_) => return Err(DatabaseError::FailedToVerifyPassword),
            Ok(false) => return Err(DatabaseError::InvalidCredentials),
            Ok(true) => {},
        }
    }
    let mut table = db.table.take().unwrap();
    table.remove(i);
    db.table = Some(table);
    proof {
        assert(db@->Some_0 =~= s.remove(i as int));
        assert forall|a: int, b: int| 0 <= a < b < s.len() - 1 implies key_of(#[trigger] s.remove(i as int)[a]) != key_of(#[trigger] s.remove(i as int)[b]) by {
            let a2 = if a < i { a } else { a + 1 };
            let b2 = if b < i { b } else { b + 1 };
            assert(s.remove(i as int)[a] == s[a2]);
            assert(s.remove(i as int)[b] == s[b2]);
            assert(key_of(s[a2]) != key_of(s[b2]));
        }
    }
    Ok(())
}

/// One page of a listing, with its number and the listing's page count.
pub struct Page {
    pub lobbies: Vec<Lobby>,
    pub page_number: u8,
    pub total_pages: u8,
}

impl Page {
    /// A page with these lobbies, number and page count.
    pub fn new(lobbies: Vec<Lobby>, page_number: u8, total_pages: u8) -> (r: Self)
        ensures
            r.lobbies == lobbies,
            r.page_number == page_number,
            r.total_pages == total_pages,
    {
        Page { lobbies, page_number, total_pages }
    }
}

/// What `get` returns for a directory state, as the lobbies of the page, the
/// page number and the page count.
pub open spec fn get_spec(t: Option<Seq<Lobby>>, request: GetView) -> Result<(Seq<Lobby>, u8, u8), DatabaseError> {
    match t {
        None => Err(DatabaseError::NotInitialised),
        Some(s) => match listing(s, request) {
            Err(e) => Err(e),
            Ok((m, page)) => Ok((page_slice(m, page), page, page_count(m.len() as int))),
        },
    }
}

/// Lists one page of the lobbies that a request selects.
pub fn get(db: &Database, request: GetRequest) -> (r: Result<Page, DatabaseError>)
    requires
        db.wf(),
    ensures
        match get_spec(db@, request@) {
            Err(e) => r == Err::<Page, DatabaseError>(e),
            Ok((lobbies, page, total)) => r matches Ok(p) && p.lobbies@ == lobbies && p.page_number == page && p.total_pages == total,
        },
        r matches Ok(p) ==> all_wf(p.lobbies@) && p.lobbies@.len() <= PAGE_SIZE,
{
    let v = match db.table.as_ref() {
        None => return Err(DatabaseError::NotInitialised),
        Some(v) => v,
    };
    assert(db@ == Some(v@));
    proof {
        assert(all_wf(v@));
        lemma_listing_wf(v@, request@);
    }
    match request {
        GetRequest::Standard((filter, regions, page_number)) => {
            if filter == Filter::Search {
                return Err(DatabaseError::InvalidFilter);
            }
            let selected = select_regions(v, &regions);
            let sorted = sort_lobbies(selected, filter);
            Ok(make_page(&sorted, page_number))
        },
        GetRequest::Search((name, page_number)) => {
            let query = chars_of(&lowercase(&name));
            let selected = select_named(v, &query, Ghost(name@));
            Ok(make_page(&selected, page_number))
        },
    }
}

/// Creates the lobbies of `ls` one after another, as callers serialised by
/// the directory's lock do: the result of each and the final state.
pub open spec fn create_all(t: Option<Seq<Lobby>>, ls: Seq<Lobby>) -> (Seq<Result<(), DatabaseError>>, Option<Seq<Lobby>>)
    decreases ls.len(),
{
    if ls.len() == 0 {
        (Seq::empty(), t)
    } else {
        let (rs, t1) = create_all(t, ls.drop_last());
        let (r, t2) = create_spec(t1, Some(ls.last()));
        (rs.push(r), t2)
    }
}

/// Once a lobby is created, a second create with the same address and port
/// fails with `LobbyAlreadyExists`, whatever its other fields.
pub proof fn lemma_identity(s: Seq<Lobby>, first: Lobby, second: Lobby)
    requires
        key_of(first) == key_of(second),
    ensures
        create_spec(create_spec(Some(s), Some(first)).1, Some(second)).0 == Err::<(), DatabaseError>(
            DatabaseError::LobbyAlreadyExists,
        ),
{
    let t1 = create_spec(Some(s), Some(first)).1->Some_0;
    if !has_key(s, first.host_ip@, first.host_port) {
        assert(t1 == s.push(first));
        assert(key_of(t1[s.len() as int]) == (second.host_ip@, second.host_port));
    }
}

/// A wrong password never deletes: `delete` fails with `InvalidCredentials`
/// and the directory is unchanged.  Without a password the check is skipped
/// and the lobby is removed.
pub proof fn lemma_credential_gate(s: Seq<Lobby>, ip: AddrModel, port: u16, password: Seq<char>)
    requires
        has_key(s, ip, port),
        password_check(password, s[key_pos(s, ip, port)].password@) == Some(false),
    ensures
        delete_spec(Some(s), ip, port, Some(password)) == (Err::<(), DatabaseError>(DatabaseError::InvalidCredentials), Some(s)),
        delete_spec(Some(s), ip, port, None) == (Ok::<(), DatabaseError>(()), Some(s.remove(key_pos(s, ip, port)))),
{
}

/// Creates of lobbies with pairwise distinct keys, none of them present yet,
/// all succeed, in any order, and add one entry each.
pub proof fn lemma_distinct_creates(s: Seq<Lobby>, ls: Seq<Lobby>)
    requires
        forall|i: int, j: int| 0 <= i < j < ls.len() ==> key_of(#[trigger] ls[i]) != key_of(#[trigger] ls[j]),
        forall|i: int| 0 <= i < ls.len() ==> !has_key(s, (#[trigger] ls[i]).host_ip@, ls[i].host_port),
    ensures
        create_all(Some(s), ls).1 == Some(s + ls),
        create_all(Some(s), ls).0.len() == ls.len(),
        forall|i: int| 0 <= i < ls.len() ==> #[trigger] create_all(Some(s), ls).0[i] == Ok::<(), DatabaseError>(()),
    decreases ls.len(),
{
    if ls.len() > 0 {
        let init = ls.drop_last();
        assert forall|i: int, j: int| 0 <= i < j < init.len() implies key_of(#[trigger] init[i]) != key_of(#[trigger] init[j]) by {
            assert(init[i] == ls[i] && init[j] == ls[j]);
        }
        assert forall|i: int| 0 <= i < init.len() implies !has_key(s, (#[trigger] init[i]).host_ip@, init[i].host_port) by {
            assert(init[i] == ls[i]);
        }
        lemma_distinct_creates(s, init);
        let x = ls.last();
        let t = s + init;
        if has_key(t, x.host_ip@, x.host_port) {
            let k = choose|k: int| 0 <= k < t.len() && #[trigger] key_of(t[k]) == (x.host_ip@, x.host_port);
            if k < s.len() {
                assert(key_of(s[k]) == (x.host_ip@, x.host_port));
                assert(!has_key(s, ls[ls.len() - 1].host_ip@, ls[ls.len() - 1].host_port));
            } else {
                assert(t[k] == ls[k - s.len()]);
                assert(key_of(ls[k - s.len()]) != key_of(ls[ls.len() - 1]));
            }
        }
        assert(t.push(x) =~= s + ls);
    }
}

/// Creates that all carry the same key, which is not present yet: the first
/// succeeds and every other fails with `LobbyAlreadyExists`.
pub proof fn lemma_same_key_creates(s: Seq<Lobby>, ls: Seq<Lobby>)
    requires
        ls.len() > 0,
        forall|i: int| 0 <= i < ls.len() ==> key_of(#[trigger] ls[i]) == key_of(ls[0]),
        !has_key(s, ls[0].host_ip@, ls[0].host_port),
    ensures
        create_all(Some(s), ls).1 == Some(s.push(ls[0])),
        create_all(Some(s), ls).0.len() == ls.len(),
        create_all(Some(s), ls).0[0] == Ok::<(), DatabaseError>(()),
        forall|i: int| 1 <= i < ls.len() ==> #[trigger] create_all(Some(s), ls).0[i] == Err::<(), DatabaseError>(DatabaseError::LobbyAlreadyExists),
    decreases ls.len(),
{
    if ls.len() == 1 {
        assert(ls.drop_last().len() == 0);
        assert(ls.last() == ls[0]);
    } else {
        let init = ls.drop_last();
        assert forall|i: int| 0 <= i < init.len() implies key_of(#[trigger] init[i]) == key_of(init[0]) by {
            assert(init[i] == ls[i]);
        }
        lemma_same_key_creates(s, init);
        let x = ls.last();
        let t = s.push(ls[0]);
        assert(key_of(t[s.len() as int]) == (x.host_ip@, x.host_port));
        assert(has_key(t, x.host_ip@, x.host_port));
    }
}

} // verus!
