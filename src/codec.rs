use vstd::prelude::*;

use crate::address::{addr_at, addr_width, be16_at, read_be16, regions_of, AddrModel, Flags, IpAddress, ParseError, Region};
use crate::credential::password_check;
use crate::database::{Lobby, Page, MAX_TEXT_LEN, PAGE_SIZE};
use crate::text::{byte_char, bytes_of, chars_at, chars_of, fits_bytes, string_from_bytes};

verus! {

/// Order of a standard listing; `Search` marks a name search on the wire.
#[derive(Clone, Copy, Debug, PartialEq, Eq, Structural)]
pub enum Filter {
    NameAscending,
    NameDescending,
    PlayerCountAscending,
    PlayerCountDescending,
    Search,
}

impl Filter {
    pub open spec fn spec_from_byte(b: u8) -> Result<Filter, ParseError> {
        if b == 0 {
            Ok(Filter::NameAscending)
        } else if b == 1 {
            Ok(Filter::NameDescending)
        } else if b == 2 {
            Ok(Filter::PlayerCountAscending)
        } else if b == 3 {
            Ok(Filter::PlayerCountDescending)
        } else if b == 255 {
            Ok(Filter::Search)
        } else {
            Err(ParseError::InvalidFilter)
        }
    }

    /// The filter with wire byte `b`.
    #[verifier::when_used_as_spec(spec_from_byte)]
    pub fn from_byte(b: u8) -> (r: Result<Filter, ParseError>)
        ensures
            r == Filter::spec_from_byte(b),
    {
        match b {
            0 => Ok(Filter::NameAscending),
            1 => Ok(Filter::NameDescending),
            2 => Ok(Filter::PlayerCountAscending),
            3 => Ok(Filter::PlayerCountDescending),
            255 => Ok(Filter::Search),
            _ => Err(ParseError::InvalidFilter),
        }
    }
}

/// A listing request: lobbies of some regions in a given order, or lobbies
/// whose name holds a search string; each with the page wanted.
#[derive(Debug, PartialEq)]
pub enum GetRequest {
    Standard((Filter, Vec<Region>, u8)),
    Search((String, u8)),
}

/// Protocol version that this codec reads: the low nibble of the first byte.
pub const VERSION: u8 = 0;

/// Message kinds, from the high nibble of the first byte; `Unknown` is any
/// other nibble.
#[derive(Clone, Copy, Debug, PartialEq, Eq, Structural)]
pub enum Types {
    Unknown,
    Create,
    Modify,
    Destroy,
    Get,
}

impl Types {
    pub open spec fn spec_from_nibble(n: u8) -> Types {
        if n == 1 {
            Types::Create
        } else if n == 2 {
            Types::Modify
        } else if n == 4 {
            Types::Destroy
        } else if n == 8 {
            Types::Get
        } else {
            Types::Unknown
        }
    }

    #[verifier::when_used_as_spec(spec_from_nibble)]
    pub fn from_nibble(n: u8) -> (r: Types)
        ensures
            r == Types::spec_from_nibble(n),
    {
        match n {
            1 => Types::Create,
            2 => Types::Modify,
            4 => Types::Destroy,
            8 => Types::Get,
            _ => Types::Unknown,
        }
    }
}

/// The fields of a lobby record, in the order they travel.
#[derive(Clone, Copy, Debug, PartialEq, Eq, Structural)]
pub enum FieldType {
    Flags,
    IpAddr,
    Port,
    Region,
    MaxCount,
    LName,
    LPass,
    Players,
}

/// A lobby as a Create or Modify message carries it: the password is still
/// plaintext.
#[derive(Debug)]
pub struct PendingLobby {
    pub flags: Flags,
    pub region: Region,
    pub host_ip: IpAddress,
    pub host_port: u16,
    pub max_players: u8,
    pub lobby_name: String,
    pub password: String,
    pub current_players: u8,
}

/// A lobby record as plain values.
pub struct LobbyFields {
    pub flags: Flags,
    pub region: Region,
    pub host: AddrModel,
    pub port: u16,
    pub max_players: u8,
    pub name: Seq<char>,
    pub password: Seq<char>,
    pub current_players: u8,
}

impl View for PendingLobby {
    type V = LobbyFields;

    open spec fn view(&self) -> LobbyFields {
        LobbyFields {
            flags: self.flags,
            region: self.region,
            host: self.host_ip@,
            port: self.host_port,
            max_players: self.max_players,
            name: self.lobby_name@,
            password: self.password@,
            current_players: self.current_players,
        }
    }
}

/// A listing request as plain values.
pub enum GetView {
    Standard(Filter, Seq<Region>, u8),
    Search(Seq<char>, u8),
}

impl View for GetRequest {
    type V = GetView;

    open spec fn view(&self) -> GetView {
        match self {
            GetRequest::Standard((f, regions, page)) => GetView::Standard(*f, regions@, *page),
            GetRequest::Search((q, page)) => GetView::Search(q@, *page),
        }
    }
}

/// A decoded message as plain values.
pub enum RequestView {
    Create(LobbyFields),
    Modify(LobbyFields),
    Destroy(AddrModel, u16, Option<Seq<char>>),
    Get(GetView),
}

/// A decoded message, before any password is hashed.
#[derive(Debug)]
pub enum Request {
    Create(PendingLobby),
    Modify(PendingLobby),
    Destroy((IpAddress, u16, Option<String>)),
    Get(GetRequest),
}

pub open spec fn opt_text_view(t: Option<String>) -> Option<Seq<char>> {
    match t {
        Some(s) => Some(s@),
        None => None,
    }
}

impl View for Request {
    type V = RequestView;

    open spec fn view(&self) -> RequestView {
        match self {
            Request::Create(l) => RequestView::Create(l@),
            Request::Modify(l) => RequestView::Modify(l@),
            Request::Destroy((ip, port, pw)) => RequestView::Destroy(ip@, *port, opt_text_view(*pw)),
            Request::Get(g) => RequestView::Get(g@),
        }
    }
}

/// A length-prefixed string at `p`: nothing when the message ends before
/// `p`; a length above `max` is an invalid name.  Gives the characters and the
/// position after them.
pub open spec fn text_at(b: Seq<u8>, p: int, max: int) -> Result<Option<(Seq<char>, int)>, ParseError> {
    if p >= b.len() {
        Ok(None)
    } else if b[p] as int > max {
        Err(ParseError::InvalidName)
    } else if p + 1 + b[p] as int > b.len() {
        Err(ParseError::MissingMessagePart)
    } else {
        Ok(Some((chars_at(b, p + 1, b[p] as int), p + 1 + b[p] as int)))
    }
}

/// A lobby record whose bytes start at `p`: flags, address, port, region,
/// capacity, name and password.  Gives the record and the position after it.
pub open spec fn lobby_at(b: Seq<u8>, p: int, sender: AddrModel) -> Result<(LobbyFields, int), ParseError> {
    if p >= b.len() {
        Err(ParseError::MissingMessagePart)
    } else {
        let flags = Flags::spec_from_byte(b[p]);
        let a = p + 1;
        let q = a + addr_width(flags.is_ipv6);
        if q > b.len() {
            Err(ParseError::MissingMessagePart)
        } else if addr_at(b, a, flags.is_ipv6) != sender {
            Err(ParseError::MismatchedIP)
        } else if q + 2 > b.len() {
            Err(ParseError::MissingMessagePart)
        } else if q + 3 > b.len() {
            Err(ParseError::MissingMessagePart)
        } else {
            match Region::spec_from_byte(b[q + 2]) {
                Err(e) => Err(e),
                Ok(region) => if q + 4 > b.len() {
                    Err(ParseError::MissingMessagePart)
                } else {
                    match text_at(b, q + 4, MAX_TEXT_LEN as int) {
                        Err(e) => Err(e),
                        Ok(None) => Err(ParseError::MissingMessagePart),
                        Ok(Some((name, r))) => match text_at(b, r, MAX_TEXT_LEN as int) {
                            Err(e) => Err(e),
                            Ok(None) => Err(ParseError::MissingMessagePart),
                            Ok(Some((password, end))) => Ok(
                                (
                                    LobbyFields {
                                        flags,
                                        region,
                                        host: addr_at(b, a, flags.is_ipv6),
                                        port: be16_at(b, q),
                                        max_players: b[q + 3],
                                        name,
                                        password,
                                        current_players: 1,
                                    },
                                    end,
                                ),
                            ),
                        },
                    }
                },
            }
        }
    }
}

/// A Modify record at `p`: a lobby record, then the player count.
pub open spec fn modified_lobby_at(b: Seq<u8>, p: int, sender: AddrModel) -> Result<LobbyFields, ParseError> {
    match lobby_at(b, p, sender) {
        Err(e) => Err(e),
        Ok((l, end)) => if end >= b.len() {
            Err(ParseError::MissingMessagePart)
        } else {
            Ok(LobbyFields { current_players: b[end], ..l })
        },
    }
}

/// A Destroy record at `p`: address family byte (1 for IPv6), address, port
/// and an optional password.
pub open spec fn destroy_at(b: Seq<u8>, p: int, sender: AddrModel) -> Result<(AddrModel, u16, Option<Seq<char>>), ParseError> {
    if p >= b.len() {
        Err(ParseError::MissingMessagePart)
    } else {
        let v6 = b[p] == 1;
        let a = p + 1;
        let q = a + addr_width(v6);
        if q > b.len() {
            Err(ParseError::MissingMessagePart)
        } else if addr_at(b, a, v6) != sender {
            Err(ParseError::MismatchedIP)
        } else if q + 2 > b.len() {
            Err(ParseError::MissingMessagePart)
        } else {
            match text_at(b, q + 2, MAX_TEXT_LEN as int) {
                Err(e) => Err(e),
                Ok(None) => Ok((addr_at(b, a, v6), be16_at(b, q), None)),
                Ok(Some((pw, _))) => Ok((addr_at(b, a, v6), be16_at(b, q), Some(pw))),
            }
        }
    }
}

/// A Get record at `p`: a filter byte, then either a region mask and a page
/// number, or (for the search filter) a search string and a page number.
pub open spec fn get_at(b: Seq<u8>, p: int) -> Result<GetView, ParseError> {
    if p >= b.len() {
        Err(ParseError::MissingMessagePart)
    } else {
        match Filter::spec_from_byte(b[p]) {
            Err(e) => Err(e),
            Ok(Filter::Search) => match text_at(b, p + 1, MAX_TEXT_LEN as int) {
                Err(e) => Err(e),
                Ok(None) => Err(ParseError::MissingMessagePart),
                Ok(Some((query, end))) => if end >= b.len() {
                    Err(ParseError::MissingMessagePart)
                } else {
                    Ok(GetView::Search(query, b[end]))
                },
            },
            Ok(f) => if p + 3 > b.len() {
                Err(ParseError::MissingMessagePart)
            } else {
                Ok(GetView::Standard(f, regions_of(b[p + 1]), b[p + 2]))
            },
        }
    }
}

/// A whole message: the header byte, then the record of its kind.
pub open spec fn decode_spec(b: Seq<u8>, sender: AddrModel) -> Result<RequestView, ParseError> {
    if b.len() == 0 {
        Err(ParseError::EmptyMessage)
    } else if b[0] & 0xF != VERSION {
        Err(ParseError::OutOfDate)
    } else {
        match Types::spec_from_nibble(b[0] >> 4) {
            Types::Unknown => Err(ParseError::InvalidType),
            Types::Create => match lobby_at(b, 1, sender) {
                Err(e) => Err(e),
                Ok((l, _)) => Ok(RequestView::Create(l)),
            },
            Types::Modify => match modified_lobby_at(b, 1, sender) {
                Err(e) => Err(e),
                Ok(l) => Ok(RequestView::Modify(l)),
            },
            Types::Destroy => match destroy_at(b, 1, sender) {
                Err(e) => Err(e),
                Ok((a, port, pw)) => Ok(RequestView::Destroy(a, port, pw)),
            },
            Types::Get => match get_at(b, 1) {
                Err(e) => Err(e),
                Ok(g) => Ok(RequestView::Get(g)),
            },
        }
    }
}

/// Reads a length-prefixed string at `p`.
fn deserialise_string(message: &[u8], p: usize, max_length: usize) -> (r: Result<Option<(String, usize)>, ParseError>)
    requires
        p <= message@.len(),
        max_length <= 255,
    ensures
        match text_at(message@, p as int, max_length as int) {
            Err(e) => r == Err::<Option<(String, usize)>, ParseError>(e),
            Ok(None) => r == Ok::<Option<(String, usize)>, ParseError>(None),
            Ok(Some((t, end))) => r matches Ok(Some((s, e))) && s@ == t && e == end,
        },
{
    if p >= message.len() {
        return Ok(None);
    }
    let length = message[p] as usize;
    if length > max_length {
        return Err(ParseError::InvalidName);
    }
    if message.len() - (p + 1) < length {
        return Err(ParseError::MissingMessagePart);
    }
    let s = string_from_bytes(message, p + 1, length);
    Ok(Some((s, p + 1 + length)))
}

/// Reads a lobby record at `p` (see `lobby_at`).
fn parse_create_lobby(message: &[u8], p: usize, ip_address: &IpAddress) -> (r: Result<(PendingLobby, usize), ParseError>)
    requires
        p <= message@.len(),
    ensures
        match lobby_at(message@, p as int, ip_address@) {
            Err(e) => r == Err::<(PendingLobby, usize), ParseError>(e),
            Ok((l, end)) => r matches Ok((x, e)) && x@ == l && e == end,
        },
{
    if p >= message.len() {
        return Err(ParseError::MissingMessagePart);
    }
    let flags = Flags::from_byte(message[p]);
    let (ip, q) = IpAddress::from_message(message, p + 1, flags.is_ipv6)?;
    if !ip.same_as(ip_address) {
        return Err(ParseError::MismatchedIP);
    }
    if message.len() - q < 2 {
        return Err(ParseError::MissingMessagePart);
    }
    let port = read_be16(message, q);
    if message.len() - q < 3 {
        return Err(ParseError::MissingMessagePart);
    }
    let region = Region::from_byte(message[q + 2])?;
    if message.len() - q < 4 {
        return Err(ParseError::MissingMessagePart);
    }
    let max_players = message[q + 3];
    let (lobby_name, r) = match deserialise_string(message, q + 4, MAX_TEXT_LEN)? {
        None => return Err(ParseError::MissingMessagePart),
        Some(t) => t,
    };
    let (password, end) = match deserialise_string(message, r, MAX_TEXT_LEN)? {
        None => return Err(ParseError::MissingMessagePart),
        Some(t) => t,
    };
    let l = PendingLobby {
        flags,
        region,
        host_ip: ip,
        host_port: port,
        max_players,
        lobby_name,
        password,
        current_players: 1,
    };
    Ok((l, end))
}

/// Reads a Modify record at `p` (see `modified_lobby_at`).
fn parse_modify_lobby(message: &[u8], p: usize, ip_address: &IpAddress) -> (r: Result<PendingLobby, ParseError>)
    requires
        p <= message@.len(),
    ensures
        match modified_lobby_at(message@, p as int, ip_address@) {
            Err(e) => r == Err::<PendingLobby, ParseError>(e),
            Ok(l) => r matches Ok(x) && x@ == l,
        },
{
    let (mut l, end) = parse_create_lobby(message, p, ip_address)?;
    if end >= message.len() {
        return Err(ParseError::MissingMessagePart);
    }
    l.current_players = message[end];
    Ok(l)
}

/// Reads a Destroy record at `p` (see `destroy_at`).
fn parse_destroy_lobby(message: &[u8], p: usize, ip_address: &IpAddress) -> (r: Result<(IpAddress, u16, Option<String>), ParseError>)
    requires
        p <= message@.len(),
    ensures
        match destroy_at(message@, p as int, ip_address@) {
            Err(e) => r == Err::<(IpAddress, u16, Option<String>), ParseError>(e),
            Ok((a, port, pw)) => r matches Ok((x, y, z)) && x@ == a && y == port && opt_text_view(z) == pw,
        },
{
    if p >= message.len() {
        return Err(ParseError::MissingMessagePart);
    }
    let is_ipv6 = message[p] == 1;
    let (ip, q) = IpAddress::from_message(message, p + 1, is_ipv6)?;
    if !ip.same_as(ip_address) {
        return Err(ParseError::MismatchedIP);
    }
    if message.len() - q < 2 {
        return Err(ParseError::MissingMessagePart);
    }
    let port = read_be16(message, q);
    let password = match deserialise_string(message, q + 2, MAX_TEXT_LEN)? {
        None => None,
        Some((s, _)) => Some(s),
    };
    Ok((ip, port, password))
}

/// Reads a Get record at `p` (see `get_at`).
fn parse_get(message: &[u8], p: usize) -> (r: Result<GetRequest, ParseError>)
    requires
        p <= message@.len(),
    ensures
        match get_at(message@, p as int) {
            Err(e) => r == Err::<GetRequest, ParseError>(e),
            Ok(g) => r matches Ok(x) && x@ == g,
        },
{
    if p >= message.len() {
        return Err(ParseError::MissingMessagePart);
    }
    let filter = Filter::from_byte(message[p])?;
    match filter {
        Filter::Search => {
            let (query, end) = match deserialise_string(message, p + 1, MAX_TEXT_LEN)? {
                None => return Err(ParseError::MissingMessagePart),
                Some(t) => t,
            };
            if end >= message.len() {
                return Err(ParseError::MissingMessagePart);
            }
            Ok(GetRequest::Search((query, message[end])))
        },
        _ => {
            if message.len() - p < 3 {
                return Err(ParseError::MissingMessagePart);
            }
            let regions = Region::get_regions(message[p + 1]);
            Ok(GetRequest::Standard((filter, regions, message[p + 2])))
        },
    }
}

/// Decodes the body of a Create message (what follows the header byte).
pub fn create_lobby(message: &[u8], ip_address: IpAddress) -> (r: Result<PendingLobby, ParseError>)
    ensures
        match lobby_at(message@, 0, ip_address@) {
            Err(e) => r == Err::<PendingLobby, ParseError>(e),
            Ok((l, _)) => r matches Ok(x) && x@ == l,
        },
{
    let (l, _) = parse_create_lobby(message, 0, &ip_address)?;
    Ok(l)
}

/// Decodes the body of a Modify message (what follows the header byte).
pub fn modify_lobby(message: &[u8], ip_address: IpAddress) -> (r: Result<PendingLobby, ParseError>)
    ensures
        match modified_lobby_at(message@, 0, ip_address@) {
            Err(e) => r == Err::<PendingLobby, ParseError>(e),
            Ok(l) => r matches Ok(x) && x@ == l,
        },
{
    parse_modify_lobby(message, 0, &ip_address)
}

/// Decodes the body of a Destroy message (what follows the header byte).
pub fn destroy_lobby(message: &[u8], ip_address: IpAddress) -> (r: Result<(IpAddress, u16, Option<String>), ParseError>)
    ensures
        match destroy_at(message@, 0, ip_address@) {
            Err(e) => r == Err::<(IpAddress, u16, Option<String>), ParseError>(e),
            Ok((a, port, pw)) => r matches Ok((x, y, z)) && x@ == a && y == port && opt_text_view(z) == pw,
        },
{
    parse_destroy_lobby(message, 0, &ip_address)
}

/// Decodes a message from the client at `ip_address` into a request, with
/// passwords still in plaintext.
pub fn decode_message(message: &[u8], ip_address: &IpAddress) -> (r: Result<Request, ParseError>)
    ensures
        match decode_spec(message@, ip_address@) {
            Err(e) => r == Err::<Request, ParseError>(e),
            Ok(v) => r matches Ok(x) && x@ == v,
        },
{
    if message.len() == 0 {
        return Err(ParseError::EmptyMessage);
    }
    let head = message[0];
    if head & 0xF != VERSION {
        return Err(ParseError::OutOfDate);
    }
    match Types::from_nibble(head >> 4) {
        Types::Unknown => Err(ParseError::InvalidType),
        Types::Create => {
            let (l, _) = parse_create_lobby(message, 1, ip_address)?;
            Ok(Request::Create(l))
        },
        Types::Modify => {
            let l = parse_modify_lobby(message, 1, ip_address)?;
            Ok(Request::Modify(l))
        },
        Types::Destroy => {
            let d = parse_destroy_lobby(message, 1, ip_address)?;
            Ok(Request::Destroy(d))
        },
        Types::Get => {
            let g = parse_get(message, 1)?;
            Ok(Request::Get(g))
        },
    }
}

/// A decoded message, with the password of a Create or Modify hashed:
/// `None` in place of the lobby where hashing failed.
#[derive(Debug, PartialEq)]
pub enum ParseOutput {
    Create(Option<Lobby>),
    Modify(Option<Lobby>),
    Destroy((IpAddress, u16, Option<String>)),
    Get(GetRequest),
}

/// `l` is the record `f` with its password replaced by a digest of it.
pub open spec fn stored_as(l: Lobby, f: LobbyFields) -> bool {
    &&& l.flags == f.flags
    &&& l.region == f.region
    &&& l.host_ip@ == f.host
    &&& l.host_port == f.port
    &&& l.max_players == f.max_players
    &&& l.lobby_name@ == f.name
    &&& l.current_players == f.current_players
    &&& l.password@.len() == 60
    &&& password_check(f.password, l.password@) == Some(true)
}

/// What `parse_message` gives for a decoded lobby record: no lobby where
/// hashing failed, else the record stored with a digest.
pub open spec fn hashed_as(o: Option<Lobby>, f: LobbyFields) -> bool {
    o matches Some(l) ==> stored_as(l, f) && l.wf()
}

impl PendingLobby {
    /// The lobby to store: the same record, with the password hashed; `None`
    /// where hashing failed.
    pub fn into_lobby(self) -> (r: Option<Lobby>)
        requires
            self@.name.len() <= MAX_TEXT_LEN,
            crate::text::fits_bytes(self@.name),
        ensures
            hashed_as(r, self@),
    {
        let count = self.current_players;
        match Lobby::new(
            self.flags,
            self.region,
            self.host_ip,
            self.host_port,
            self.max_players,
            self.lobby_name,
            self.password,
        ) {
            None => None,
            Some(mut l) => {
                l.set_player_count(count);
                Some(l)
            },
        }
    }
}

/// Decodes a message from the client at `ip_address`, hashing the password
/// of a Create or Modify.
pub fn parse_message(message: &[u8], ip_address: IpAddress) -> (r: Result<ParseOutput, ParseError>)
    ensures
        match decode_spec(message@, ip_address@) {
            Err(e) => r == Err::<ParseOutput, ParseError>(e),
            Ok(RequestView::Create(f)) => r matches Ok(ParseOutput::Create(o)) && hashed_as(o, f),
            Ok(RequestView::Modify(f)) => r matches Ok(ParseOutput::Modify(o)) && hashed_as(o, f),
            Ok(RequestView::Destroy(a, port, pw)) => r matches Ok(ParseOutput::Destroy((x, y, z)))
                && x@ == a && y == port && opt_text_view(z) == pw,
            Ok(RequestView::Get(g)) => r matches Ok(ParseOutput::Get(x)) && x@ == g,
        },
{
    match decode_message(message, &ip_address)? {
        Request::Create(l) => Ok(ParseOutput::Create(l.into_lobby())),
        Request::Modify(l) => Ok(ParseOutput::Modify(l.into_lobby())),
        Request::Destroy(d) => Ok(ParseOutput::Destroy(d)),
        Request::Get(g) => Ok(ParseOutput::Get(g)),
    }
}

/// Values that have a byte form in responses.
pub trait Serialise: Sized {
    /// The value can be written: its lengths fit their length bytes.
    spec fn encodable(&self) -> bool;

    /// The bytes that stand for the value.
    spec fn wire(&self) -> Seq<u8>;

    fn serialise(self) -> (r: Vec<u8>)
        requires
            self.encodable(),
        ensures
            r@ == self.wire(),
    ;
}

/// A 16-bit value, big-endian.
pub open spec fn u16_wire(v: u16) -> Seq<u8> {
    seq![(v / 256) as u8, (v % 256) as u8]
}

/// A string as its length byte and one byte per character.
pub open spec fn text_wire(s: Seq<char>) -> Seq<u8> {
    seq![s.len() as u8] + bytes_of(s)
}

/// An address as it travels: four octets, or eight big-endian groups.
pub open spec fn addr_wire(a: AddrModel) -> Seq<u8> {
    match a {
        AddrModel::V4(o) => o,
        AddrModel::V6(g) => Seq::new(16, |i: int| if i % 2 == 0 {
            (g[i / 2] / 256) as u8
        } else {
            (g[i / 2] % 256) as u8
        }),
    }
}

/// The fields of a lobby record in a response; the digest is never sent.
pub open spec fn lobby_body(l: Lobby) -> Seq<u8> {
    seq![l.flags.spec_to_byte(), l.region.spec_bit()] + addr_wire(l.host_ip@) + u16_wire(l.host_port)
        + seq![l.max_players] + text_wire(l.lobby_name@) + seq![l.current_players]
}

/// A lobby record, prefixed by its length.
pub open spec fn lobby_wire(l: Lobby) -> Seq<u8> {
    seq![lobby_body(l).len() as u8] + lobby_body(l)
}

/// The records of several lobbies, one after another.
pub open spec fn lobbies_wire(s: Seq<Lobby>) -> Seq<u8>
    decreases s.len(),
{
    if s.len() == 0 {
        Seq::empty()
    } else {
        lobbies_wire(s.drop_last()) + lobby_wire(s.last())
    }
}

impl Serialise for u16 {
    open spec fn encodable(&self) -> bool {
        true
    }

    open spec fn wire(&self) -> Seq<u8> {
        u16_wire(*self)
    }

    fn serialise(self) -> (r: Vec<u8>) {
        let mut out: Vec<u8> = Vec::new();
        out.push((self / 256) as u8);
        out.push((self % 256) as u8);
        assert(out@ =~= u16_wire(self));
        out
    }
}

impl Serialise for String {
    open spec fn encodable(&self) -> bool {
        self@.len() <= 255 && fits_bytes(self@)
    }

    open spec fn wire(&self) -> Seq<u8> {
        text_wire(self@)
    }

    fn serialise(self) -> (r: Vec<u8>) {
        let chars = chars_of(&self);
        let mut out: Vec<u8> = Vec::new();
        out.push(chars.len() as u8);
        let mut i: usize = 0;
        while i < chars.len()
            invariant
                chars@ == self@,
                fits_bytes(self@),
                i <= chars@.len(),
                out@ == seq![self@.len() as u8] + bytes_of(self@.take(i as int)),
            decreases chars@.len() - i,
        {
            let c = chars[i];
            assert((c as u32) < 256);
            out.push(c as u32 as u8);
            i += 1;
            assert(out@ =~= seq![self@.len() as u8] + bytes_of(self@.take(i as int)));
        }
        assert(self@.take(i as int) =~= self@);
        out
    }
}

/// The bytes of an address (see `addr_wire`).
fn serialise_address(a: &IpAddress) -> (r: Vec<u8>)
    ensures
        r@ == addr_wire(a@),
{
    let mut out: Vec<u8> = Vec::new();
    match a {
        IpAddress::IpV4(o) => {
            let mut i: usize = 0;
            while i < 4
                invariant
                    i <= 4,
                    out@ == o@.take(i as int),
                decreases 4 - i,
            {
                out.push(o[i]);
                i += 1;
                assert(out@ =~= o@.take(i as int));
            }
            assert(o@.take(4) =~= o@);
        },
        IpAddress::IpV6(g) => {
            let ghost w = addr_wire(a@);
            let mut i: usize = 0;
            while i < 8
                invariant
                    i <= 8,
                    w == addr_wire(AddrModel::V6(g@)),
                    out@ == w.take(2 * i),
                decreases 8 - i,
            {
                out.push((g[i] / 256) as u8);
                out.push((g[i] % 256) as u8);
                i += 1;
                assert(out@ =~= w.take(2 * i));
            }
            assert(w.take(16) =~= w);
        },
    }
    out
}

impl Serialise for &Lobby {
    open spec fn encodable(&self) -> bool {
        (**self).wf()
    }

    open spec fn wire(&self) -> Seq<u8> {
        lobby_wire(**self)
    }

    fn serialise(self) -> (r: Vec<u8>) {
        let mut body: Vec<u8> = Vec::new();
        body.push(self.flags.to_byte());
        body.push(self.region.bit());
        let mut a = serialise_address(&self.host_ip);
        body.append(&mut a);
        let mut p = self.host_port.serialise();
        body.append(&mut p);
        body.push(self.max_players);
        let mut n = self.lobby_name.clone().serialise();
        body.append(&mut n);
        body.push(self.current_players);
        assert(body@ =~= lobby_body(*self));
        let mut out: Vec<u8> = Vec::new();
        out.push(body.len() as u8);
        out.append(&mut body);
        assert(out@ =~= lobby_wire(*self));
        out
    }
}

impl Page {
    /// A page that fits a response: at most a page of lobbies, each writable.
    pub open spec fn wf(&self) -> bool {
        self.lobbies@.len() <= PAGE_SIZE && forall|i: int| 0 <= i < self.lobbies@.len() ==> (
        #[trigger] self.lobbies@[i]).wf()
    }
}

/// Page responses: the records as one block behind a 16-bit length, then
/// the page number and the page count.
pub open spec fn page_wire(p: Page) -> Seq<u8> {
    page_bytes(p.lobbies@, p.page_number, p.total_pages)
}

/// The bytes of a page with these lobbies, number and page count.
pub open spec fn page_bytes(lobbies: Seq<Lobby>, page_number: u8, total_pages: u8) -> Seq<u8> {
    u16_wire(lobbies_wire(lobbies).len() as u16) + lobbies_wire(lobbies) + seq![page_number, total_pages]
}

/// A lobby record takes at most 56 bytes.
pub(crate) proof fn lemma_lobbies_wire_len(s: Seq<Lobby>)
    requires
        forall|i: int| 0 <= i < s.len() ==> (#[trigger] s[i]).wf(),
    ensures
        lobbies_wire(s).len() <= 56 * s.len(),
    decreases s.len(),
{
    if s.len() > 0 {
        assert forall|i: int| 0 <= i < s.drop_last().len() implies (#[trigger] s.drop_last()[i]).wf() by {
            assert(s.drop_last()[i] == s[i]);
        }
        lemma_lobbies_wire_len(s.drop_last());
        assert(s.last().wf());
    }
}

impl Serialise for Page {
    open spec fn encodable(&self) -> bool {
        self.wf()
    }

    open spec fn wire(&self) -> Seq<u8> {
        page_wire(*self)
    }

    fn serialise(self) -> (r: Vec<u8>) {
        let mut block: Vec<u8> = Vec::new();
        let mut i: usize = 0;
        while i < self.lobbies.len()
            invariant
                self.wf(),
                i <= self.lobbies@.len(),
                block@ == lobbies_wire(self.lobbies@.take(i as int)),
            decreases self.lobbies@.len() - i,
        {
            let mut rec = (&self.lobbies[i]).serialise();
            block.append(&mut rec);
            i += 1;
            assert(self.lobbies@.take(i as int).drop_last() =~= self.lobbies@.take(i - 1));
        }
        assert(self.lobbies@.take(i as int) =~= self.lobbies@);
        proof {
            lemma_lobbies_wire_len(self.lobbies@);
        }
        let mut out = (block.len() as u16).serialise();
        out.append(&mut block);
        out.push(self.page_number);
        out.push(self.total_pages);
        assert(out@ =~= page_wire(self));
        out
    }
}

/// The header byte of a version-0 Create message.
pub const CREATE_HEADER: u8 = 0x10;

/// The header byte of a version-0 Destroy message.
pub const DESTROY_HEADER: u8 = 0x40;

/// The Create message that a client at the lobby's own address sends for it,
/// with `password` as plaintext.
pub open spec fn create_message(l: Lobby, password: Seq<char>) -> Seq<u8> {
    seq![CREATE_HEADER, l.flags.spec_to_byte()] + addr_wire(l.host_ip@) + u16_wire(l.host_port) + seq![
        l.region.spec_bit(),
        l.max_players,
    ] + text_wire(l.lobby_name@) + text_wire(password)
}

/// The record that a Create message for `l` carries.
pub open spec fn create_fields(l: Lobby, password: Seq<char>) -> LobbyFields {
    LobbyFields {
        flags: l.flags,
        region: l.region,
        host: l.host_ip@,
        port: l.host_port,
        max_players: l.max_players,
        name: l.lobby_name@,
        password,
        current_players: 1,
    }
}

/// Reading back the flags byte gives the same flags.
proof fn lemma_flags_round_trip(f: Flags)
    ensures
        Flags::spec_from_byte(f.spec_to_byte()) == f,
{
    let a: u8 = if f.is_ipv6 { 1 } else { 0 };
    let c: u8 = if f.is_public { 1 } else { 0 };
    let d: u8 = if f.has_password { 1 } else { 0 };
    let b: u8 = f.spec_to_byte();
    assert(b == a + 2 * c + 4 * d);
    assert((b & 1 != 0) == (a == 1) && (b & 2 != 0) == (c == 1) && (b & 4 != 0) == (d == 1)) by (bit_vector)
        requires
            b == a + 2 * c + 4 * d,
            a <= 1,
            c <= 1,
            d <= 1,
    ;
}

/// What the header bytes of Create and Destroy say.
proof fn lemma_header_bits()
    ensures
        CREATE_HEADER & 0xF == VERSION,
        Types::spec_from_nibble(CREATE_HEADER >> 4) == Types::Create,
        DESTROY_HEADER & 0xF == VERSION,
        Types::spec_from_nibble(DESTROY_HEADER >> 4) == Types::Destroy,
{
    assert(0x10u8 & 0xF == 0 && 0x10u8 >> 4 == 1) by (bit_vector);
    assert(0x40u8 & 0xF == 0 && 0x40u8 >> 4 == 4) by (bit_vector);
}

/// A written string reads back as itself.
proof fn lemma_text_round_trip(b: Seq<u8>, p: int, t: Seq<char>)
    requires
        0 <= p,
        p + 1 + t.len() <= b.len(),
        b.subrange(p, p + 1 + t.len()) == text_wire(t),
        t.len() <= MAX_TEXT_LEN,
        fits_bytes(t),
    ensures
        text_at(b, p, MAX_TEXT_LEN as int) == Ok::<Option<(Seq<char>, int)>, ParseError>(Some((t, p + 1 + t.len()))),
{
    assert(b[p] == b.subrange(p, p + 1 + t.len())[0]);
    assert(b[p] as int == t.len());
    assert forall|i: int| 0 <= i < t.len() implies #[trigger] chars_at(b, p + 1, t.len() as int)[i] == t[i] by {
        assert(b[p + 1 + i] == b.subrange(p, p + 1 + t.len())[1 + i]);
        assert(b[p + 1 + i] == t[i] as u32 as u8);
        let c = t[i];
        let x: u8 = c as u32 as u8;
        assert(x as u32 == c as u32);
        vstd::utf8::char_u32_cast(c, c as u32);
        assert((x as char) == ((x as u32) as char));
        assert(byte_char(x) == c);
    }
    assert(chars_at(b, p + 1, t.len() as int) =~= t);
}

/// A written address reads back as itself.
proof fn lemma_addr_round_trip(b: Seq<u8>, p: int, a: IpAddress)
    requires
        0 <= p,
        p + addr_wire(a@).len() <= b.len(),
        b.subrange(p, p + addr_wire(a@).len()) == addr_wire(a@),
    ensures
        addr_width(a is IpV6) == addr_wire(a@).len(),
        addr_at(b, p, a is IpV6) == a@,
{
    match a {
        IpAddress::IpV4(o) => {
            assert(b.subrange(p, p + 4) =~= o@);
        },
        IpAddress::IpV6(g) => {
            assert forall|i: int| 0 <= i < 8 implies #[trigger] be16_at(b, p + 2 * i) == g@[i] by {
                assert(b[p + 2 * i] == b.subrange(p, p + 16)[2 * i]);
                assert(b[p + 2 * i + 1] == b.subrange(p, p + 16)[2 * i + 1]);
                assert((2 * i) / 2 == i && (2 * i + 1) / 2 == i && (2 * i) % 2 == 0 && (2 * i + 1) % 2 == 1);
            }
            assert(Seq::new(8, |i: int| be16_at(b, p + 2 * i)) =~= g@);
        },
    }
}

/// Where the fields of a Create message stand.
proof fn lemma_create_layout(l: Lobby, password: Seq<char>)
    ensures
        ({
            let b = create_message(l, password);
            let q: int = 2 + addr_wire(l.host_ip@).len() as int;
            let r: int = q + 5 + l.lobby_name@.len();
            &&& b.len() == r + 1 + password.len()
            &&& b[0] == CREATE_HEADER
            &&& b[1] == l.flags.spec_to_byte()
            &&& b.subrange(2, q as int) == addr_wire(l.host_ip@)
            &&& b[q as int] == u16_wire(l.host_port)[0]
            &&& b[q + 1] == u16_wire(l.host_port)[1]
            &&& b[q + 2] == l.region.spec_bit()
            &&& b[q + 3] == l.max_players
            &&& b.subrange(q + 4, r as int) == text_wire(l.lobby_name@)
            &&& b.subrange(r as int, r + 1 + password.len()) == text_wire(password)
        }),
{
    let aw = addr_wire(l.host_ip@);
    let p0 = seq![CREATE_HEADER, l.flags.spec_to_byte()];
    let p1 = p0 + aw;
    let p2 = p1 + u16_wire(l.host_port);
    let p3 = p2 + seq![l.region.spec_bit(), l.max_players];
    let p4 = p3 + text_wire(l.lobby_name@);
    let b = p4 + text_wire(password);
    let q: int = 2 + aw.len() as int;
    let r: int = q + 5 + l.lobby_name@.len();
    assert(b == create_message(l, password));
    assert(b.subrange(0, p4.len() as int) =~= p4);
    assert(p4.subrange(0, p3.len() as int) =~= p3);
    assert(p3.subrange(0, p2.len() as int) =~= p2);
    assert(p2.subrange(0, p1.len() as int) =~= p1);
    assert(b[0] == p4[0] && p4[0] == p3[0] && p3[0] == p2[0] && p2[0] == p1[0] && p1[0] == p0[0]);
    assert(b[1] == p4[1] && p4[1] == p3[1] && p3[1] == p2[1] && p2[1] == p1[1] && p1[1] == p0[1]);
    assert(b.subrange(2, q as int) =~= p1.subrange(2, q as int));
    assert(p1.subrange(2, q as int) =~= aw);
    assert(b[q as int] == p2[q as int]);
    assert(b[q + 1] == p2[q + 1]);
    assert(b[q + 2] == p3[q + 2]);
    assert(b[q + 3] == p3[q + 3]);
    assert(b.subrange(q + 4, r as int) =~= text_wire(l.lobby_name@));
    assert(b.subrange(r as int, r + 1 + password.len()) =~= text_wire(password));
}

/// The lobby record of a Create message for `l`.
proof fn lemma_create_record(l: Lobby, password: Seq<char>)
    requires
        l.wf(),
        l.flags.is_ipv6 == (l.host_ip is IpV6),
        password.len() <= MAX_TEXT_LEN,
        fits_bytes(password),
    ensures
        lobby_at(create_message(l, password), 1, l.host_ip@) matches Ok((f, _)) && f == create_fields(l, password),
{
    let b = create_message(l, password);
    let w = addr_wire(l.host_ip@).len() as int;
    let q = 2 + w;
    let name = l.lobby_name@;
    let r: int = q + 5 + name.len();
    lemma_create_layout(l, password);
    lemma_flags_round_trip(l.flags);
    lemma_addr_round_trip(b, 2, l.host_ip);
    assert(be16_at(b, q) == l.host_port);
    lemma_text_round_trip(b, q + 4, name);
    lemma_text_round_trip(b, r, password);
    assert(Region::spec_from_byte(l.region.spec_bit()) == Ok::<Region, ParseError>(l.region));
}

/// Decoding the Create message for a lobby, from the lobby's own address,
/// gives back every field of the lobby and the plaintext password.
pub proof fn lemma_create_round_trip(l: Lobby, password: Seq<char>)
    requires
        l.wf(),
        l.flags.is_ipv6 == (l.host_ip is IpV6),
        password.len() <= MAX_TEXT_LEN,
        fits_bytes(password),
    ensures
        decode_spec(create_message(l, password), l.host_ip@) == Ok::<RequestView, ParseError>(
            RequestView::Create(create_fields(l, password)),
        ),
{
    lemma_header_bits();
    lemma_create_layout(l, password);
    lemma_create_record(l, password);
}

/// What a round trip stores: a lobby that `parse_message` builds from the
/// Create message for `l` equals `l` (with one player) on every field but
/// the password, whose digest verifies against the plaintext and differs
/// from it.
pub proof fn lemma_round_trip_stored(l: Lobby, password: Seq<char>, stored: Lobby)
    requires
        password.len() <= MAX_TEXT_LEN,
        stored_as(stored, create_fields(l, password)),
    ensures
        stored.same_record(&Lobby { current_players: 1, ..l }),
        password_check(password, stored.password@) == Some(true),
        stored.password@ != password,
{
}

/// A Create or Destroy message that names a complete address other than the
/// sender's is refused with `MismatchedIP`; the sender's address is never
/// put in its place.
pub proof fn lemma_spoofing_guard(b: Seq<u8>, sender: AddrModel)
    requires
        b.len() >= 2,
        b[0] == CREATE_HEADER || b[0] == DESTROY_HEADER,
        ({
            let v6 = if b[0] == CREATE_HEADER { Flags::spec_from_byte(b[1]).is_ipv6 } else { b[1] == 1 };
            2 + addr_width(v6) <= b.len() && addr_at(b, 2, v6) != sender
        }),
    ensures
        decode_spec(b, sender) == Err::<RequestView, ParseError>(ParseError::MismatchedIP),
{
    lemma_header_bits();
}

} // verus!
