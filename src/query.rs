use vstd::prelude::*;

use crate::address::Region;
use crate::codec::{Filter, GetView};
use crate::database::{DatabaseError, Lobby, Page, PAGE_SIZE};
use crate::text::{chars_before, chars_of, contains_chars, has_infix, lex_lt, lower_of, lowercase};

verus! {

/// `a` goes strictly before `b` in the order that `f` asks for.  Names compare
/// by their lowercase forms.
pub open spec fn precedes(f: Filter, a: Lobby, b: Lobby) -> bool {
    match f {
        Filter::NameAscending => lex_lt(lower_of(a.lobby_name@), lower_of(b.lobby_name@)),
        Filter::NameDescending => lex_lt(lower_of(b.lobby_name@), lower_of(a.lobby_name@)),
        Filter::PlayerCountAscending => a.current_players < b.current_players,
        Filter::PlayerCountDescending => a.current_players > b.current_players,
        Filter::Search => false,
    }
}

/// Scanning `s` left to right and moving on only to a lobby that strictly
/// precedes the one held: the index held at the end.  Ties keep the earlier.
pub open spec fn first_least(s: Seq<Lobby>, f: Filter) -> int
    decreases s.len(),
{
    if s.len() <= 1 {
        0
    } else {
        let b = first_least(s.drop_last(), f);
        if precedes(f, s.last(), s[b]) {
            s.len() - 1
        } else {
            b
        }
    }
}

/// `s` in the order of `f`: repeatedly takes out `first_least` (see
/// `lemma_sort_by_filter` for what this guarantees).
pub open spec fn sort_by_filter(s: Seq<Lobby>, f: Filter) -> Seq<Lobby>
    decreases s.len(),
{
    let m = first_least(s, f);
    if s.len() == 0 || !(0 <= m < s.len()) {
        Seq::empty()
    } else {
        seq![s[m]] + sort_by_filter(s.remove(m), f)
    }
}

/// The lobbies of `s` whose region is among `regions`, in their order.
pub open spec fn in_regions(s: Seq<Lobby>, regions: Seq<Region>) -> Seq<Lobby> {
    s.filter(|l: Lobby| regions.contains(l.region))
}

/// The lobbies of `s` whose lowercase name holds the lowercase query.
pub open spec fn named_like(s: Seq<Lobby>, query: Seq<char>) -> Seq<Lobby> {
    s.filter(|l: Lobby| has_infix(lower_of(l.lobby_name@), lower_of(query)))
}

/// The page with number `page` of a listing.
pub open spec fn page_slice(s: Seq<Lobby>, page: u8) -> Seq<Lobby> {
    let start = page as int * PAGE_SIZE as int;
    if start >= s.len() {
        Seq::empty()
    } else if start + PAGE_SIZE as int <= s.len() {
        s.subrange(start, start + PAGE_SIZE as int)
    } else {
        s.subrange(start, s.len() as int)
    }
}

/// The page count reported for `n` matches: the count is kept in one byte, then
/// divided by the page size.
pub open spec fn page_count(n: int) -> u8 {
    ((n % 256) / PAGE_SIZE as int) as u8
}

/// The full ordered listing that a request selects from `s`, and the page it asks for.
pub open spec fn listing(s: Seq<Lobby>, request: GetView) -> Result<(Seq<Lobby>, u8), DatabaseError> {
    match request {
        GetView::Standard(f, regions, page) => if f == Filter::Search {
            Err(DatabaseError::InvalidFilter)
        } else {
            Ok((sort_by_filter(in_regions(s, regions), f), page))
        },
        GetView::Search(query, page) => Ok((named_like(s, query), page)),
    }
}

/// Whether `a` goes strictly before `b` under `f`, given their lowercase names.
fn lobby_precedes(f: Filter, a: &Lobby, ka: &Vec<char>, b: &Lobby, kb: &Vec<char>) -> (r: bool)
    requires
        ka@ == lower_of(a.lobby_name@),
        kb@ == lower_of(b.lobby_name@),
    ensures
        r == precedes(f, *a, *b),
{
    match f {
        Filter::NameAscending => chars_before(ka, kb),
        Filter::NameDescending => chars_before(kb, ka),
        Filter::PlayerCountAscending => a.current_players < b.current_players,
        Filter::PlayerCountDescending => a.current_players > b.current_players,
        Filter::Search => false,
    }
}

/// The lowercase characters of a lobby's name.
fn name_key(l: &Lobby) -> (r: Vec<char>)
    ensures
        r@ == lower_of(l.lobby_name@),
{
    chars_of(&lowercase(&l.lobby_name))
}

/// Sorts lobbies stably into the order that `f` asks for.
pub fn sort_lobbies(items: Vec<Lobby>, f: Filter) -> (r: Vec<Lobby>)
    ensures
        r@ == sort_by_filter(items@, f),
{
    let mut rest = items;
    let mut keys: Vec<Vec<char>> = Vec::new();
    let mut i: usize = 0;
    while i < rest.len()
        invariant
            i <= rest@.len(),
            keys@.len() == i,
            forall|k: int| 0 <= k < i ==> (#[trigger] keys@[k])@ == lower_of(rest@[k].lobby_name@),
        decreases rest@.len() - i,
    {
        keys.push(name_key(&rest[i]));
        i += 1;
    }
    let mut out: Vec<Lobby> = Vec::new();
    while rest.len() > 0
        invariant
            keys@.len() == rest@.len(),
            forall|k: int| 0 <= k < rest@.len() ==> (#[trigger] keys@[k])@ == lower_of(rest@[k].lobby_name@),
            sort_by_filter(items@, f) == out@ + sort_by_filter(rest@, f),
        decreases rest@.len(),
    {
        let mut best: usize = 0;
        let mut j: usize = 1;
        while j < rest.len()
            invariant
                1 <= j <= rest@.len(),
                best < j,
                keys@.len() == rest@.len(),
                forall|k: int| 0 <= k < rest@.len() ==> (#[trigger] keys@[k])@ == lower_of(rest@[k].lobby_name@),
                best == first_least(rest@.take(j as int), f),
            decreases rest@.len() - j,
        {
            proof {
                assert(rest@.take(j + 1).drop_last() =~= rest@.take(j as int));
                assert(rest@.take(j + 1)[best as int] == rest@[best as int]);
            }
            if lobby_precedes(f, &rest[j], &keys[j], &rest[best], &keys[best]) {
                best = j;
            }
            j += 1;
        }
        proof {
            assert(rest@.take(rest@.len() as int) =~= rest@);
        }
        let ghost before = rest@;
        let x = rest.remove(best);
        keys.remove(best);
        proof {
            assert(sort_by_filter(before, f) == seq![x] + sort_by_filter(rest@, f));
            assert(out@.push(x) + sort_by_filter(rest@, f) =~= out@ + (seq![x] + sort_by_filter(rest@, f)));
        }
        out.push(x);
    }
    proof {
        assert(out@ + sort_by_filter(rest@, f) =~= out@);
    }
    out
}

/// Copies of the lobbies whose region is among `regions`, in order.
pub(crate) fn select_regions(v: &Vec<Lobby>, regions: &Vec<Region>) -> (r: Vec<Lobby>)
    ensures
        r@ == in_regions(v@, regions@),
{
    let mut out: Vec<Lobby> = Vec::new();
    let mut i: usize = 0;
    while i < v.len()
        invariant
            i <= v@.len(),
            out@ == in_regions(v@.take(i as int), regions@),
        decreases v@.len() - i,
    {
        let mut found = false;
        let mut k: usize = 0;
        while k < regions.len()
            invariant
                k <= regions@.len(),
                i < v@.len(),
                found == (exists|m: int| 0 <= m < k && regions@[m] == v@[i as int].region),
            decreases regions@.len() - k,
        {
            if regions[k] == v[i].region {
                found = true;
            }
            k += 1;
        }
        proof {
            assert(v@.take(i + 1).drop_last() =~= v@.take(i as int));
            assert(v@.take(i + 1).last() == v@[i as int]);
            if found {
                let m = choose|m: int| 0 <= m < k && regions@[m] == v@[i as int].region;
                assert(regions@.contains(v@[i as int].region));
            }
            assert(found == regions@.contains(v@[i as int].region));
            reveal(Seq::filter);
            assert(in_regions(v@.take(i + 1), regions@) == (if found {
                in_regions(v@.take(i as int), regions@).push(v@[i as int])
            } else {
                in_regions(v@.take(i as int), regions@)
            }));
        }
        if found {
            out.push(v[i].duplicate());
        }
        i += 1;
    }
    proof {
        assert(v@.take(v@.len() as int) =~= v@);
    }
    out
}

/// Copies of the lobbies whose lowercase name holds `query`, in order.
pub(crate) fn select_named(v: &Vec<Lobby>, query: &Vec<char>, Ghost(q): Ghost<Seq<char>>) -> (r: Vec<Lobby>)
    requires
        query@ == lower_of(q),
    ensures
        r@ == named_like(v@, q),
{
    let mut out: Vec<Lobby> = Vec::new();
    let mut i: usize = 0;
    while i < v.len()
        invariant
            i <= v@.len(),
            query@ == lower_of(q),
            out@ == named_like(v@.take(i as int), q),
        decreases v@.len() - i,
    {
        let key = name_key(&v[i]);
        let hit = contains_chars(&key, query);
        proof {
            assert(v@.take(i + 1).drop_last() =~= v@.take(i as int));
            assert(v@.take(i + 1).last() == v@[i as int]);
            reveal(Seq::filter);
            assert(named_like(v@.take(i + 1), q) == (if hit {
                named_like(v@.take(i as int), q).push(v@[i as int])
            } else {
                named_like(v@.take(i as int), q)
            }));
        }
        if hit {
            out.push(v[i].duplicate());
        }
        i += 1;
    }
    proof {
        assert(v@.take(v@.len() as int) =~= v@);
    }
    out
}

/// The page with number `page` of a listing, with the listing's page count.
pub(crate) fn make_page(m: &Vec<Lobby>, page: u8) -> (r: Page)
    ensures
        r.lobbies@ == page_slice(m@, page),
        r.page_number == page,
        r.total_pages == page_count(m@.len() as int),
{
    let first: u64 = page as u64 * PAGE_SIZE as u64;
    let mut out: Vec<Lobby> = Vec::new();
    if first < m.len() as u64 {
        let start = first as usize;
        let end: usize = if m.len() - start >= PAGE_SIZE as usize {
            start + PAGE_SIZE as usize
        } else {
            m.len()
        };
        let mut k: usize = start;
        while k < end
            invariant
                start <= k <= end <= m@.len(),
                out@ == m@.subrange(start as int, k as int),
            decreases end - k,
        {
            out.push(m[k].duplicate());
            k += 1;
            assert(out@ =~= m@.subrange(start as int, k as int));
        }
    }
    proof {
        if first >= m@.len() {
            assert(out@ =~= page_slice(m@, page));
        }
    }
    let count = (m.len() % 256) as u8;
    Page::new(out, page, count / PAGE_SIZE)
}

/// Every lobby of `s` can be written on the wire.
pub open spec fn all_wf(s: Seq<Lobby>) -> bool {
    forall|i: int| 0 <= i < s.len() ==> (#[trigger] s[i]).wf()
}

/// Filtering keeps only lobbies that were writable.
proof fn lemma_filter_keeps_wf(s: Seq<Lobby>, pred: spec_fn(Lobby) -> bool)
    requires
        all_wf(s),
    ensures
        all_wf(s.filter(pred)),
    decreases s.len(),
{
    reveal(Seq::filter);
    if s.len() > 0 {
        assert(all_wf(s.drop_last())) by {
            assert forall|i: int| 0 <= i < s.drop_last().len() implies (#[trigger] s.drop_last()[i]).wf() by {
                assert(s.drop_last()[i] == s[i]);
            }
        }
        lemma_filter_keeps_wf(s.drop_last(), pred);
        assert(s.last().wf());
    }
}

/// Sorting keeps only lobbies that were writable.
proof fn lemma_sort_keeps_wf(s: Seq<Lobby>, f: Filter)
    requires
        all_wf(s),
    ensures
        all_wf(sort_by_filter(s, f)),
    decreases s.len(),
{
    let m = first_least(s, f);
    if s.len() > 0 && 0 <= m < s.len() {
        let rest = s.remove(m);
        assert(all_wf(rest)) by {
            assert forall|i: int| 0 <= i < rest.len() implies (#[trigger] rest[i]).wf() by {
                if i < m {
                    assert(rest[i] == s[i]);
                } else {
                    assert(rest[i] == s[i + 1]);
                }
            }
        }
        lemma_sort_keeps_wf(rest, f);
        let out = seq![s[m]] + sort_by_filter(rest, f);
        assert forall|i: int| 0 <= i < out.len() implies (#[trigger] out[i]).wf() by {
            if i > 0 {
                assert(out[i] == sort_by_filter(rest, f)[i - 1]);
            }
        }
    }
}

/// The lobbies of every page of a listing can be written on the wire, at
/// most a page of them.
pub(crate) proof fn lemma_listing_wf(s: Seq<Lobby>, request: GetView)
    requires
        all_wf(s),
    ensures
        listing(s, request) matches Ok((m, page)) ==> all_wf(page_slice(m, page)) && page_slice(m, page).len() <= PAGE_SIZE,
{
    match request {
        GetView::Standard(f, regions, page) => {
            lemma_filter_keeps_wf(s, |l: Lobby| regions.contains(l.region));
            lemma_sort_keeps_wf(in_regions(s, regions), f);
        },
        GetView::Search(query, page) => {
            lemma_filter_keeps_wf(s, |l: Lobby| has_infix(lower_of(l.lobby_name@), lower_of(query)));
        },
    }
    if listing(s, request) is Ok {
        let (m, page) = listing(s, request)->Ok_0;
        let ps = page_slice(m, page);
        assert forall|i: int| 0 <= i < ps.len() implies (#[trigger] ps[i]).wf() by {
            let start = page as int * PAGE_SIZE as int;
            assert(ps[i] == m[start + i]);
        }
    }
}

/// No string comes before itself.
proof fn lemma_lex_irreflexive(a: Seq<char>)
    ensures
        !lex_lt(a, a),
{
}

/// The order on strings is transitive.
proof fn lemma_lex_transitive(a: Seq<char>, b: Seq<char>, c: Seq<char>)
    requires
        lex_lt(a, b),
        lex_lt(b, c),
    ensures
        lex_lt(a, c),
{
    let i = choose|i: int|
        0 <= i <= a.len() && i <= b.len() && #[trigger] a.take(i) == b.take(i) && ((i == a.len() && i
            < b.len()) || (i < a.len() && i < b.len() && (a[i] as u32) < (b[i] as u32)));
    let j = choose|j: int|
        0 <= j <= b.len() && j <= c.len() && #[trigger] b.take(j) == c.take(j) && ((j == b.len() && j
            < c.len()) || (j < b.len() && j < c.len() && (b[j] as u32) < (c[j] as u32)));
    if i <= j {
        assert forall|k: int| 0 <= k < i implies a[k] == c[k] by {
            assert(a.take(i)[k] == b.take(i)[k]);
            assert(b.take(j)[k] == c.take(j)[k]);
        }
        assert(a.take(i) =~= c.take(i));
        if i < j {
            assert(b.take(j)[i] == c.take(j)[i]);
        }
        assert(a.take(i) == c.take(i));
    } else {
        assert forall|k: int| 0 <= k < j implies a[k] == c[k] by {
            assert(a.take(i)[k] == b.take(i)[k]);
            assert(b.take(j)[k] == c.take(j)[k]);
        }
        assert(a.take(j) =~= c.take(j));
        assert(a.take(i)[j] == b.take(i)[j]);
        assert(a.take(j) == c.take(j));
    }
}

/// `precedes` is a strict order: irreflexive and transitive.
proof fn lemma_precedes_order(f: Filter, a: Lobby, b: Lobby, c: Lobby)
    ensures
        !precedes(f, a, a),
        precedes(f, a, b) && precedes(f, b, c) ==> precedes(f, a, c),
{
    lemma_lex_irreflexive(lower_of(a.lobby_name@));
    if precedes(f, a, b) && precedes(f, b, c) {
        match f {
            Filter::NameAscending => lemma_lex_transitive(
                lower_of(a.lobby_name@),
                lower_of(b.lobby_name@),
                lower_of(c.lobby_name@),
            ),
            Filter::NameDescending => lemma_lex_transitive(
                lower_of(c.lobby_name@),
                lower_of(b.lobby_name@),
                lower_of(a.lobby_name@),
            ),
            _ => {},
        }
    }
}

/// The lobby that `first_least` picks is preceded by no lobby of `s`.
proof fn lemma_first_least_min(s: Seq<Lobby>, f: Filter)
    requires
        s.len() > 0,
    ensures
        0 <= first_least(s, f) < s.len(),
        forall|j: int| 0 <= j < s.len() ==> !precedes(f, #[trigger] s[j], s[first_least(s, f)]),
    decreases s.len(),
{
    if s.len() == 1 {
        lemma_precedes_order(f, s[0], s[0], s[0]);
    } else {
        let d = s.drop_last();
        lemma_first_least_min(d, f);
        let b = first_least(d, f);
        let m = first_least(s, f);
        assert(d[b] == s[b]);
        assert forall|j: int| 0 <= j < s.len() implies !precedes(f, #[trigger] s[j], s[m]) by {
            lemma_precedes_order(f, s[j], s.last(), s[b]);
            lemma_precedes_order(f, s[j], s[j], s[j]);
            if j < s.len() - 1 {
                assert(d[j] == s[j]);
            }
        }
    }
}

/// Sorting keeps the lobbies (as a multiset) and orders them: no lobby of
/// the result is preceded by one that comes after it.
pub proof fn lemma_sort_by_filter(s: Seq<Lobby>, f: Filter)
    ensures
        sort_by_filter(s, f).to_multiset() == s.to_multiset(),
        forall|i: int, j: int|
            0 <= i < j < sort_by_filter(s, f).len() ==> !precedes(f, #[trigger] sort_by_filter(s, f)[j], #[trigger] sort_by_filter(s, f)[i]),
    decreases s.len(),
{
    broadcast use vstd::seq_lib::group_to_multiset_ensures;
    broadcast use vstd::multiset::group_multiset_axioms;

    if s.len() == 0 {
        assert(sort_by_filter(s, f) =~= s);
    } else {
        lemma_first_least_min(s, f);
        let m = first_least(s, f);
        let rest = s.remove(m);
        lemma_sort_by_filter(rest, f);
        let tail = sort_by_filter(rest, f);
        let out = sort_by_filter(s, f);
        assert(out == seq![s[m]] + tail);
        vstd::seq_lib::lemma_multiset_commutative(seq![s[m]], tail);
        assert(seq![s[m]].to_multiset() =~= vstd::multiset::Multiset::empty().insert(s[m])) by {
            assert(seq![s[m]] =~= Seq::<Lobby>::empty().push(s[m]));
        }
        assert(out.to_multiset() =~= s.to_multiset());
        assert forall|i: int, j: int| 0 <= i < j < out.len() implies !precedes(f, #[trigger] out[j], #[trigger] out[i]) by {
            if i == 0 {
                let x = tail[j - 1];
                assert(out[j] == x);
                assert(tail.to_multiset().count(x) > 0);
                assert(rest.contains(x));
                let k = choose|k: int| 0 <= k < rest.len() && rest[k] == x;
                if k < m {
                    assert(rest[k] == s[k]);
                } else {
                    assert(rest[k] == s[k + 1]);
                }
            } else {
                assert(out[i] == tail[i - 1] && out[j] == tail[j - 1]);
            }
        }
    }
}

} // verus!
