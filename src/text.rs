use vstd::prelude::*;
use vstd::string::StrSliceExecFns;

verus! {

/// The character that a byte on the wire stands for (each byte is one
/// character, Latin-1).
pub open spec fn byte_char(b: u8) -> char {
    b as char
}

/// The characters of `n` bytes of `b` starting at `p`.
pub open spec fn chars_at(b: Seq<u8>, p: int, n: int) -> Seq<char> {
    Seq::new(n as nat, |i: int| byte_char(b[p + i]))
}

/// A string each of whose characters fits in one byte on the wire.
pub open spec fn fits_bytes(s: Seq<char>) -> bool {
    forall|i: int| 0 <= i < s.len() ==> (s[i] as u32) < 256
}

/// The bytes that stand for a string of one-byte characters.
pub open spec fn bytes_of(s: Seq<char>) -> Seq<u8> {
    Seq::new(s.len(), |i: int| s[i] as u32 as u8)
}

/// What `str::to_lowercase` makes of a string.
pub uninterp spec fn lower_of(s: Seq<char>) -> Seq<char>;

/// `q` occurs in `t` as a contiguous run of characters.
pub open spec fn has_infix(t: Seq<char>, q: Seq<char>) -> bool {
    exists|i: int| 0 <= i && i + q.len() <= t.len() && #[trigger] t.subrange(i, i + q.len()) == q
}

/// Lexicographic order on characters by code point; a proper prefix comes first.
pub open spec fn lex_lt(a: Seq<char>, b: Seq<char>) -> bool {
    exists|i: int|
        0 <= i <= a.len() && i <= b.len() && #[trigger] a.take(i) == b.take(i) && ((i == a.len() && i
            < b.len()) || (i < a.len() && i < b.len() && (a[i] as u32) < (b[i] as u32)))
}

/// Relies on `String::push`: appends one character.
#[verifier::external_body]
pub(crate) fn push_char(s: &mut String, c: char)
    ensures
        final(s)@ == old(s)@.push(c),
{
    s.push(c)
}

/// Relies on `str::to_lowercase`: the result depends on the characters alone.
#[verifier::external_body]
pub(crate) fn lowercase(s: &String) -> (r: String)
    ensures
        r@ == lower_of(s@),
{
    s.to_lowercase()
}

/// The string of `n` bytes of `b` starting at `p`, one character per byte.
pub fn string_from_bytes(b: &[u8], p: usize, n: usize) -> (r: String)
    requires
        p + n <= b@.len(),
    ensures
        r@ == chars_at(b@, p as int, n as int),
{
    let len = b.len();
    let mut r = String::new();
    let mut i: usize = 0;
    while i < n
        invariant
            i <= n,
            p + n <= b@.len(),
            len == b@.len(),
            r@ == chars_at(b@, p as int, i as int),
        decreases n - i,
    {
        push_char(&mut r, b[p + i] as char);
        i += 1;
        assert(r@ =~= chars_at(b@, p as int, i as int));
    }
    r
}

/// The characters of a string, one per element.
pub fn chars_of(s: &String) -> (r: Vec<char>)
    ensures
        r@ == s@,
{
    let n = s.as_str().unicode_len();
    let mut r: Vec<char> = Vec::new();
    let mut i: usize = 0;
    while i < n
        invariant
            i <= n,
            n == s@.len(),
            r@ == s@.take(i as int),
        decreases n - i,
    {
        r.push(s.as_str().get_char(i));
        i += 1;
        assert(r@ =~= s@.take(i as int));
    }
    assert(r@ =~= s@);
    r
}

/// Whether `q` occurs in `t`.
pub fn contains_chars(t: &Vec<char>, q: &Vec<char>) -> (r: bool)
    ensures
        r == has_infix(t@, q@),
{
    if q.len() > t.len() {
        return false;
    }
    let last = t.len() - q.len();
    let mut i: usize = 0;
    loop
        invariant
            i <= last,
            last + q@.len() == t@.len(),
            t@.len() <= usize::MAX,
            forall|k: int| 0 <= k < i ==> #[trigger] t@.subrange(k, k + q@.len()) != q@,
        decreases last - i,
    {
        let mut j: usize = 0;
        let mut same = true;
        while j < q.len()
            invariant
                i <= last,
                last + q@.len() == t@.len(),
                j <= q@.len(),
                t@.len() <= usize::MAX,
                same == (forall|k: int| 0 <= k < j ==> t@[i + k] == q@[k]),
            decreases q@.len() - j,
        {
            if t[i + j] != q[j] {
                same = false;
            }
            j += 1;
        }
        if same {
            assert(t@.subrange(i as int, i + q@.len()) =~= q@);
            return true;
        }
        assert(t@.subrange(i as int, i + q@.len()) != q@) by {
            let k = choose|k: int| 0 <= k < q@.len() && t@[i + k] != q@[k];
            assert(t@.subrange(i as int, i + q@.len())[k] != q@[k]);
        }
        if i == last {
            return false;
        }
        i += 1;
    }
}

/// Whether `a` comes strictly before `b` in `lex_lt` order.
pub fn chars_before(a: &Vec<char>, b: &Vec<char>) -> (r: bool)
    ensures
        r == lex_lt(a@, b@),
{
    let mut i: usize = 0;
    while i < a.len() && i < b.len() && a[i] == b[i]
        invariant
            i <= a@.len(),
            i <= b@.len(),
            a@.take(i as int) == b@.take(i as int),
        decreases a@.len() - i,
    {
        i += 1;
        assert(a@.take(i as int) =~= b@.take(i as int));
    }
    let r = if i == a.len() {
        i < b.len()
    } else if i == b.len() {
        false
    } else {
        (a[i] as u32) < (b[i] as u32)
    };
    proof {
        if !r {
            assert forall|k: int|
                0 <= k <= a@.len() && k <= b@.len() && #[trigger] a@.take(k) == b@.take(k) implies !((k
                == a@.len() && k < b@.len()) || (k < a@.len() && k < b@.len() && (a@[k] as u32) < (
            b@[k] as u32))) by {
                if k < i {
                    assert(a@.take(i as int)[k] == b@.take(i as int)[k]);
                } else if k > i {
                    assert(a@.take(k)[i as int] == b@.take(k)[i as int]);
                }
            }
        }
    }
    r
}

} // verus!
