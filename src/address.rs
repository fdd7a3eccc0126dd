use vstd::prelude::*;

use crate::text::push_char;

verus! {

broadcast use vstd::array::group_array_axioms;

/// Why a message could not be decoded.  Each kind maps to its own status code.
#[derive(Clone, Copy, Debug, PartialEq, Eq, Structural)]
pub enum ParseError {
    EmptyMessage,
    InvalidType,
    MissingMessagePart,
    InvalidRegion,
    InvalidName,
    MismatchedIP,
    OutOfDate,
    InvalidFilter,
}

impl ParseError {
    pub open spec fn spec_code(self) -> u8 {
        match self {
            ParseError::EmptyMessage => 40,
            ParseError::InvalidType => 41,
            ParseError::MissingMessagePart => 42,
            ParseError::InvalidRegion => 43,
            ParseError::InvalidName => 44,
            ParseError::MismatchedIP => 45,
            ParseError::OutOfDate => 46,
            ParseError::InvalidFilter => 47,
        }
    }

    /// The status byte that reports this error on the wire.
    #[verifier::when_used_as_spec(spec_code)]
    pub fn code(self) -> (r: u8)
        ensures
            r == self.spec_code(),
    {
        match self {
            ParseError::EmptyMessage => 40,
            ParseError::InvalidType => 41,
            ParseError::MissingMessagePart => 42,
            ParseError::InvalidRegion => 43,
            ParseError::InvalidName => 44,
            ParseError::MismatchedIP => 45,
            ParseError::OutOfDate => 46,
            ParseError::InvalidFilter => 47,
        }
    }
}

/// A host address as plain values: an IPv4 address as its four octets, an
/// IPv6 address as its eight 16-bit groups.
pub enum AddrModel {
    V4(Seq<u8>),
    V6(Seq<u16>),
}

#[derive(Clone, Copy, Debug)]
pub enum IpAddress {
    IpV4([u8; 4]),
    IpV6([u16; 8]),
}

impl View for IpAddress {
    type V = AddrModel;

    open spec fn view(&self) -> AddrModel {
        match self {
            IpAddress::IpV4(a) => AddrModel::V4(a@),
            IpAddress::IpV6(a) => AddrModel::V6(a@),
        }
    }
}

impl PartialEq for IpAddress {
    fn eq(&self, other: &IpAddress) -> (r: bool) {
        self.same_as(other)
    }
}

impl Eq for IpAddress {}

impl Default for IpAddress {
    /// The unspecified IPv4 address, 0.0.0.0.
    fn default() -> (r: IpAddress)
        ensures
            r@ == AddrModel::V4(seq![0u8, 0u8, 0u8, 0u8]),
    {
        let a: [u8; 4] = [0, 0, 0, 0];
        assert(a@ =~= seq![0u8, 0u8, 0u8, 0u8]);
        IpAddress::IpV4(a)
    }
}

impl vstd::std_specs::cmp::PartialEqSpecImpl for IpAddress {
    open spec fn obeys_eq_spec() -> bool {
        true
    }

    open spec fn eq_spec(&self, other: &IpAddress) -> bool {
        self@ == other@
    }
}

/// The declared properties of a lobby, packed into one byte on the wire:
/// bit 0 is `is_ipv6`, bit 1 `is_public`, bit 2 `has_password`.
#[derive(Clone, Copy, Debug, PartialEq, Eq, Structural)]
pub struct Flags {
    pub is_ipv6: bool,
    pub is_public: bool,
    pub has_password: bool,
}

impl Flags {
    /// Flags with the given values.
    pub fn new(is_ipv6: bool, is_public: bool, has_password: bool) -> (r: Flags)
        ensures
            r == (Flags { is_ipv6, is_public, has_password }),
    {
        Flags { is_ipv6, is_public, has_password }
    }

    pub open spec fn spec_from_byte(b: u8) -> Flags {
        Flags { is_ipv6: b & 1 != 0, is_public: b & 2 != 0, has_password: b & 4 != 0 }
    }

    /// Reads the flags byte; bits above the third are ignored.
    #[verifier::when_used_as_spec(spec_from_byte)]
    pub fn from_byte(b: u8) -> (r: Flags)
        ensures
            r == Flags::spec_from_byte(b),
    {
        Flags { is_ipv6: b & 1 != 0, is_public: b & 2 != 0, has_password: b & 4 != 0 }
    }

    pub open spec fn spec_to_byte(self) -> u8 {
        ((if self.is_ipv6 { 1int } else { 0 }) + (if self.is_public { 2int } else { 0 }) + (
        if self.has_password { 4int } else { 0 })) as u8
    }

    #[verifier::when_used_as_spec(spec_to_byte)]
    pub fn to_byte(self) -> (r: u8)
        ensures
            r == self.spec_to_byte(),
    {
        let a: u8 = if self.is_ipv6 { 1 } else { 0 };
        let b: u8 = if self.is_public { 2 } else { 0 };
        let c: u8 = if self.has_password { 4 } else { 0 };
        a + b + c
    }
}

/// Where a lobby is hosted.  Each region is also one bit of a region mask.
#[derive(Clone, Copy, Debug, PartialEq, Eq, Structural)]
pub enum Region {
    Africa,
    Asia,
    Europe,
    NorthAmerica,
    SouthAmerica,
    Oceania,
}

/// Every region, in the order of their bits.
pub open spec fn all_regions() -> Seq<Region> {
    seq![
        Region::Africa,
        Region::Asia,
        Region::Europe,
        Region::NorthAmerica,
        Region::SouthAmerica,
        Region::Oceania,
    ]
}

/// `seq![r]` when `keep` holds, else the empty sequence.
pub open spec fn region_if(keep: bool, r: Region) -> Seq<Region> {
    if keep {
        seq![r]
    } else {
        Seq::empty()
    }
}

/// The regions selected by a mask, in bit order; a mask that selects none of
/// the six regions selects them all.
pub open spec fn regions_of(mask: u8) -> Seq<Region> {
    if mask & 63 == 0 {
        all_regions()
    } else {
        region_if(mask & 1 != 0, Region::Africa) + region_if(mask & 2 != 0, Region::Asia)
            + region_if(mask & 4 != 0, Region::Europe) + region_if(mask & 8 != 0, Region::NorthAmerica)
            + region_if(mask & 16 != 0, Region::SouthAmerica) + region_if(mask & 32 != 0, Region::Oceania)
    }
}

impl Region {
    pub open spec fn spec_bit(self) -> u8 {
        match self {
            Region::Africa => 1,
            Region::Asia => 2,
            Region::Europe => 4,
            Region::NorthAmerica => 8,
            Region::SouthAmerica => 16,
            Region::Oceania => 32,
        }
    }

    /// The region's bit, which is also its byte on the wire.
    #[verifier::when_used_as_spec(spec_bit)]
    pub fn bit(self) -> (r: u8)
        ensures
            r == self.spec_bit(),
    {
        match self {
            Region::Africa => 1,
            Region::Asia => 2,
            Region::Europe => 4,
            Region::NorthAmerica => 8,
            Region::SouthAmerica => 16,
            Region::Oceania => 32,
        }
    }

    pub open spec fn spec_from_byte(b: u8) -> Result<Region, ParseError> {
        if b == 1 {
            Ok(Region::Africa)
        } else if b == 2 {
            Ok(Region::Asia)
        } else if b == 4 {
            Ok(Region::Europe)
        } else if b == 8 {
            Ok(Region::NorthAmerica)
        } else if b == 16 {
            Ok(Region::SouthAmerica)
        } else if b == 32 {
            Ok(Region::Oceania)
        } else {
            Err(ParseError::InvalidRegion)
        }
    }

    /// The region whose bit is exactly `b`.
    #[verifier::when_used_as_spec(spec_from_byte)]
    pub fn from_byte(b: u8) -> (r: Result<Region, ParseError>)
        ensures
            r == Region::spec_from_byte(b),
            r matches Ok(g) ==> g.bit() == b,
    {
        match b {
            1 => Ok(Region::Africa),
            2 => Ok(Region::Asia),
            4 => Ok(Region::Europe),
            8 => Ok(Region::NorthAmerica),
            16 => Ok(Region::SouthAmerica),
            32 => Ok(Region::Oceania),
            _ => Err(ParseError::InvalidRegion),
        }
    }

    /// The regions that a filter mask selects, each once, in bit order.  A mask
    /// with none of the six bits set means no restriction: every region.
    pub fn get_regions(value: u8) -> (r: Vec<Region>)
        ensures
            r@ == regions_of(value),
            forall|g: Region| #[trigger] r@.contains(g) <==> (value & 63 == 0 || value & g.bit() != 0),
    {
        proof {
            lemma_mask_bits(value);
        }
        let mut output: Vec<Region> = Vec::new();
        if value & 1 == 1 {
            output.push(Region::Africa);
        }
        assert(output@ =~= region_if(value & 1 != 0, Region::Africa));
        let ghost s1 = output@;
        if value & 2 == 2 {
            output.push(Region::Asia);
        }
        assert(output@ =~= s1 + region_if(value & 2 != 0, Region::Asia));
        let ghost s2 = output@;
        if value & 4 == 4 {
            output.push(Region::Europe);
        }
        assert(output@ =~= s2 + region_if(value & 4 != 0, Region::Europe));
        let ghost s3 = output@;
        if value & 8 == 8 {
            output.push(Region::NorthAmerica);
        }
        assert(output@ =~= s3 + region_if(value & 8 != 0, Region::NorthAmerica));
        let ghost s4 = output@;
        if value & 16 == 16 {
            output.push(Region::SouthAmerica);
        }
        assert(output@ =~= s4 + region_if(value & 16 != 0, Region::SouthAmerica));
        let ghost s5 = output@;
        if value & 32 == 32 {
            output.push(Region::Oceania);
        }
        assert(output@ =~= s5 + region_if(value & 32 != 0, Region::Oceania));
        proof {
            if value & 63 != 0 {
                assert(output@ == regions_of(value));
                assert(output@.len() > 0);
            }
        }
        if output.len() == 0 {
            output = vec![
                Region::Africa,
                Region::Asia,
                Region::Europe,
                Region::NorthAmerica,
                Region::SouthAmerica,
                Region::Oceania,
            ];
            assert(output@ =~= all_regions());
        }
        assert(output@ == regions_of(value));
        proof {
            lemma_regions_of(value);
        }
        output
    }
}

/// Testing one bit of a mask, in the forms the code and the specs use.
proof fn lemma_mask_bits(m: u8)
    ensures
        (m & 63 == 0) <==> (m & 1 == 0 && m & 2 == 0 && m & 4 == 0 && m & 8 == 0 && m & 16 == 0 && m
            & 32 == 0),
        (m & 1 == 1) <==> (m & 1 != 0),
        (m & 2 == 2) <==> (m & 2 != 0),
        (m & 4 == 4) <==> (m & 4 != 0),
        (m & 8 == 8) <==> (m & 8 != 0),
        (m & 16 == 16) <==> (m & 16 != 0),
        (m & 32 == 32) <==> (m & 32 != 0),
{
    assert((m & 63 == 0) <==> (m & 1 == 0 && m & 2 == 0 && m & 4 == 0 && m & 8 == 0 && m & 16 == 0
        && m & 32 == 0)) by (bit_vector);
    assert((m & 1 == 1) <==> (m & 1 != 0)) by (bit_vector);
    assert((m & 2 == 2) <==> (m & 2 != 0)) by (bit_vector);
    assert((m & 4 == 4) <==> (m & 4 != 0)) by (bit_vector);
    assert((m & 8 == 8) <==> (m & 8 != 0)) by (bit_vector);
    assert((m & 16 == 16) <==> (m & 16 != 0)) by (bit_vector);
    assert((m & 32 == 32) <==> (m & 32 != 0)) by (bit_vector);
}

/// Membership in `regions_of`, bit by bit.
proof fn lemma_regions_of(mask: u8)
    ensures
        forall|g: Region| #[trigger] regions_of(mask).contains(g) <==> (mask & 63 == 0 || mask & g.bit() != 0),
{
    broadcast use vstd::seq_lib::group_seq_properties;

    lemma_mask_bits(mask);
    assert forall|g: Region| #[trigger] regions_of(mask).contains(g) <==> (mask & 63 == 0 || mask
        & g.bit() != 0) by {
        if mask & 63 == 0 {
            let i: int = match g {
                Region::Africa => 0,
                Region::Asia => 1,
                Region::Europe => 2,
                Region::NorthAmerica => 3,
                Region::SouthAmerica => 4,
                Region::Oceania => 5,
            };
            assert(all_regions()[i] == g);
        } else {
            assert(region_if(mask & 1 != 0, Region::Africa).contains(g) <==> (mask & 1 != 0 && g == Region::Africa));
            assert(region_if(mask & 2 != 0, Region::Asia).contains(g) <==> (mask & 2 != 0 && g == Region::Asia));
            assert(region_if(mask & 4 != 0, Region::Europe).contains(g) <==> (mask & 4 != 0 && g == Region::Europe));
            assert(region_if(mask & 8 != 0, Region::NorthAmerica).contains(g) <==> (mask & 8 != 0 && g == Region::NorthAmerica));
            assert(region_if(mask & 16 != 0, Region::SouthAmerica).contains(g) <==> (mask & 16 != 0 && g == Region::SouthAmerica));
            assert(region_if(mask & 32 != 0, Region::Oceania).contains(g) <==> (mask & 32 != 0 && g == Region::Oceania));
        }
    }
}

/// Big-endian 16-bit value of the two bytes at `p`.
pub open spec fn be16_at(b: Seq<u8>, p: int) -> u16 {
    (b[p] as int * 256 + b[p + 1] as int) as u16
}

/// Number of bytes an address occupies on the wire.
pub open spec fn addr_width(is_ipv6: bool) -> int {
    if is_ipv6 {
        16
    } else {
        4
    }
}

/// The address whose bytes start at `p`.
pub open spec fn addr_at(b: Seq<u8>, p: int, is_ipv6: bool) -> AddrModel {
    if is_ipv6 {
        AddrModel::V6(Seq::new(8, |i: int| be16_at(b, p + 2 * i)))
    } else {
        AddrModel::V4(b.subrange(p, p + 4))
    }
}

/// Reads the big-endian 16-bit value at `p`.
pub fn read_be16(b: &[u8], p: usize) -> (r: u16)
    requires
        p + 2 <= b@.len(),
    ensures
        r == be16_at(b@, p as int),
{
    let hi = b[p] as u16;
    let lo = b[p + 1] as u16;
    hi * 256 + lo
}

impl IpAddress {
    /// Whether two addresses are the same address (same family, same parts).
    pub fn same_as(&self, other: &IpAddress) -> (r: bool)
        ensures
            r == (self@ == other@),
    {
        match (self, other) {
            (IpAddress::IpV4(a), IpAddress::IpV4(b)) => {
                let r = a[0] == b[0] && a[1] == b[1] && a[2] == b[2] && a[3] == b[3];
                proof {
                    if r {
                        assert(a@ =~= b@);
                    } else if a@ == b@ {
                        assert(a@[0] == b@[0] && a@[1] == b@[1] && a@[2] == b@[2] && a@[3] == b@[3]);
                    }
                }
                r
            },
            (IpAddress::IpV6(a), IpAddress::IpV6(b)) => {
                let r = a[0] == b[0] && a[1] == b[1] && a[2] == b[2] && a[3] == b[3] && a[4] == b[4]
                    && a[5] == b[5] && a[6] == b[6] && a[7] == b[7];
                proof {
                    if r {
                        assert(a@ =~= b@);
                    } else if a@ == b@ {
                        assert(a@[0] == b@[0] && a@[1] == b@[1] && a@[2] == b@[2] && a@[3] == b@[3]);
                        assert(a@[4] == b@[4] && a@[5] == b@[5] && a@[6] == b@[6] && a@[7] == b@[7]);
                    }
                }
                r
            },
            _ => false,
        }
    }
}

impl IpAddress {
    /// The IPv6 address with these sixteen octets, grouped in big-endian pairs.
    pub fn from_ipv6_octets(o: [u8; 16]) -> (r: IpAddress)
        ensures
            r@ == addr_at(o@, 0, true),
    {
        let b = o.as_slice();
        assert(b@ == o@);
        let a = [
            read_be16(b, 0),
            read_be16(b, 2),
            read_be16(b, 4),
            read_be16(b, 6),
            read_be16(b, 8),
            read_be16(b, 10),
            read_be16(b, 12),
            read_be16(b, 14),
        ];
        assert(a@ =~= Seq::new(8, |i: int| be16_at(o@, 0 + 2 * i)));
        IpAddress::IpV6(a)
    }

    /// Reads an address of the given family at `pos`; gives it with the position after it.
    pub fn from_message(msg: &[u8], pos: usize, is_ipv6: bool) -> (r: Result<(IpAddress, usize), ParseError>)
        requires
            pos <= msg@.len(),
        ensures
            pos + addr_width(is_ipv6) <= msg@.len() ==> r == Ok::<(IpAddress, usize), ParseError>(
                (r->Ok_0.0, (pos + addr_width(is_ipv6)) as usize)) && r->Ok_0.0@ == addr_at(msg@, pos as int, is_ipv6),
            pos + addr_width(is_ipv6) > msg@.len() ==> r == Err::<(IpAddress, usize), ParseError>(ParseError::MissingMessagePart),
    {
        if is_ipv6 {
            if msg.len() - pos < 16 {
                return Err(ParseError::MissingMessagePart);
            }
            let a = [
                read_be16(msg, pos),
                read_be16(msg, pos + 2),
                read_be16(msg, pos + 4),
                read_be16(msg, pos + 6),
                read_be16(msg, pos + 8),
                read_be16(msg, pos + 10),
                read_be16(msg, pos + 12),
                read_be16(msg, pos + 14),
            ];
            let r = IpAddress::IpV6(a);
            assert(a@ =~= Seq::new(8, |i: int| be16_at(msg@, pos + 2 * i)));
            Ok((r, pos + 16))
        } else {
            if msg.len() - pos < 4 {
                return Err(ParseError::MissingMessagePart);
            }
            let a = [msg[pos], msg[pos + 1], msg[pos + 2], msg[pos + 3]];
            let r = IpAddress::IpV4(a);
            assert(a@ =~= msg@.subrange(pos as int, pos + 4));
            Ok((r, pos + 4))
        }
    }
}

/// The digit character for a value below 16 (lowercase for ten and above).
pub open spec fn digit(d: nat) -> char {
    if d == 0 { '0' } else if d == 1 { '1' } else if d == 2 { '2' } else if d == 3 { '3' }
    else if d == 4 { '4' } else if d == 5 { '5' } else if d == 6 { '6' } else if d == 7 { '7' }
    else if d == 8 { '8' } else if d == 9 { '9' } else if d == 10 { 'a' } else if d == 11 { 'b' }
    else if d == 12 { 'c' } else if d == 13 { 'd' } else if d == 14 { 'e' } else { 'f' }
}

/// `n` written in base `base`, without leading zeros.
pub open spec fn numeral(n: nat, base: nat) -> Seq<char>
    decreases n,
{
    if base < 2 || n < base {
        seq![digit(n)]
    } else {
        proof {
            assert(n / base < n) by (nonlinear_arith)
                requires
                    base >= 2,
                    n >= base,
            ;
        }
        numeral(n / base, base).push(digit(n % base))
    }
}

/// The parts joined with `sep` between each two.
pub open spec fn joined(parts: Seq<Seq<char>>, sep: char) -> Seq<char>
    decreases parts.len(),
{
    if parts.len() == 0 {
        Seq::empty()
    } else if parts.len() == 1 {
        parts[0]
    } else {
        joined(parts.drop_last(), sep).push(sep) + parts.last()
    }
}

/// An address as text: dotted decimal octets then `/4`, or colon-separated
/// hexadecimal groups then `/6`.
pub open spec fn address_text(a: AddrModel) -> Seq<char> {
    match a {
        AddrModel::V4(o) => joined(Seq::new(o.len(), |i: int| numeral(o[i] as nat, 10)), '.') + seq!['/', '4'],
        AddrModel::V6(g) => joined(Seq::new(g.len(), |i: int| numeral(g[i] as nat, 16)), ':') + seq!['/', '6'],
    }
}

/// The text of a directory key: the address, a colon and the decimal port.
pub open spec fn key_text(a: AddrModel, port: u16) -> Seq<char> {
    address_text(a).push(':') + numeral(port as nat, 10)
}

/// The digit character of a value below 16.
fn digit_char(d: u32) -> (c: char)
    requires
        d < 16,
    ensures
        c == digit(d as nat),
{
    match d {
        0 => '0',
        1 => '1',
        2 => '2',
        3 => '3',
        4 => '4',
        5 => '5',
        6 => '6',
        7 => '7',
        8 => '8',
        9 => '9',
        10 => 'a',
        11 => 'b',
        12 => 'c',
        13 => 'd',
        14 => 'e',
        _ => 'f',
    }
}

/// Appends `n` in base `base`.
fn push_numeral(s: &mut String, n: u32, base: u32)
    requires
        2 <= base <= 16,
    ensures
        final(s)@ == old(s)@ + numeral(n as nat, base as nat),
    decreases n,
{
    if n >= base {
        push_numeral(s, n / base, base);
        push_char(s, digit_char(n % base));
        assert(final(s)@ =~= old(s)@ + numeral(n as nat, base as nat));
    } else {
        push_char(s, digit_char(n));
        assert(final(s)@ =~= old(s)@ + numeral(n as nat, base as nat));
    }
}

impl IpAddress {
    /// The address as text (see `address_text`).
    pub fn to_string(&self) -> (r: String)
        ensures
            r@ == address_text(self@),
    {
        let mut s = String::new();
        match self {
            IpAddress::IpV4(o) => {
                let ghost parts = Seq::new(o@.len(), |i: int| numeral(o@[i] as nat, 10));
                let mut i: usize = 0;
                while i < 4
                    invariant
                        i <= 4,
                        parts == Seq::new(o@.len(), |i: int| numeral(o@[i] as nat, 10)),
                        s@ == joined(parts.take(i as int), '.'),
                    decreases 4 - i,
                {
                    let ghost before = s@;
                    if i > 0 {
                        push_char(&mut s, '.');
                    }
                    push_numeral(&mut s, o[i] as u32, 10);
                    i += 1;
                    assert(parts.take(i as int).drop_last() =~= parts.take(i - 1));
                    assert(parts.take(i as int).last() == parts[i - 1]);
                    if i == 1 {
                        assert(s@ =~= joined(parts.take(i as int), '.'));
                    } else {
                        assert(s@ =~= joined(parts.take(i as int), '.'));
                    }
                }
                assert(parts.take(4) =~= parts);
                push_char(&mut s, '/');
                push_char(&mut s, '4');
            },
            IpAddress::IpV6(g) => {
                let ghost parts = Seq::new(g@.len(), |i: int| numeral(g@[i] as nat, 16));
                let mut i: usize = 0;
                while i < 8
                    invariant
                        i <= 8,
                        parts == Seq::new(g@.len(), |i: int| numeral(g@[i] as nat, 16)),
                        s@ == joined(parts.take(i as int), ':'),
                    decreases 8 - i,
                {
                    if i > 0 {
                        push_char(&mut s, ':');
                    }
                    push_numeral(&mut s, g[i] as u32, 16);
                    i += 1;
                    assert(parts.take(i as int).drop_last() =~= parts.take(i - 1));
                    assert(parts.take(i as int).last() == parts[i - 1]);
                    assert(s@ =~= joined(parts.take(i as int), ':'));
                }
                assert(parts.take(8) =~= parts);
                push_char(&mut s, '/');
                push_char(&mut s, '6');
            },
        }
        assert(s@ =~= address_text(self@));
        s
    }
}

/// The directory key of a lobby, as text: `<address>:<port>`.
pub fn make_key(ip: &IpAddress, port: u16) -> (r: String)
    ensures
        r@ == key_text(ip@, port),
{
    let mut s = ip.to_string();
    push_char(&mut s, ':');
    push_numeral(&mut s, port as u32, 10);
    s
}

} // verus!
