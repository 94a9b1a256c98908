//! Texts that are read line by line.

use crate::text::{is_white, white};
use vstd::prelude::*;
use vstd::string::StrSliceExecFns;

verus! {

/// What stands between the line feeds of a text.
pub open spec fn pieces(s: Seq<char>) -> Seq<Seq<char>>
    decreases s.len(),
{
    if s.len() == 0 {
        seq![Seq::<char>::empty()]
    } else {
        let t = pieces(s.drop_last());
        if s.last() == '\n' {
            t.push(Seq::empty())
        } else {
            t.drop_last().push(t.last().push(s.last()))
        }
    }
}

/// A line without the carriage return at its end.
pub open spec fn without_return(s: Seq<char>) -> Seq<char> {
    if s.len() > 0 && s.last() == '\r' {
        s.drop_last()
    } else {
        s
    }
}

/// The lines of a text. A line feed ends a line, with a carriage return before it or
/// without; what follows the last one is a line if there is anything.
pub open spec fn lines(s: Seq<char>) -> Seq<Seq<char>> {
    let p = pieces(s);
    let ended = p.drop_last().map_values(|l: Seq<char>| without_return(l));
    if p.last().len() == 0 {
        ended
    } else {
        ended.push(p.last())
    }
}

pub open spec fn views(v: Seq<Vec<char>>) -> Seq<Seq<char>> {
    Seq::new(v.len(), |i: int| v[i]@)
}

/// The lines of a text.
pub fn split_lines(s: &Vec<char>) -> (r: Vec<Vec<char>>)
    ensures
        views(r@) == lines(s@),
{
    let mut out: Vec<Vec<char>> = Vec::new();
    let mut cur: Vec<char> = Vec::new();
    let strip = Ghost(|l: Seq<char>| without_return(l));
    let mut i: usize = 0;
    proof {
        assert(s@.take(0) =~= Seq::<char>::empty());
        assert(views(out@) =~= pieces(s@.take(0)).drop_last().map_values(strip@));
    }
    while i < s.len()
        invariant
            i <= s@.len(),
            strip@ == (|l: Seq<char>| without_return(l)),
            pieces(s@.take(i as int)).len() > 0,
            cur@ == pieces(s@.take(i as int)).last(),
            views(out@) == pieces(s@.take(i as int)).drop_last().map_values(strip@),
        decreases s@.len() - i,
    {
        let c: char = s[i];
        let ghost p = pieces(s@.take(i as int));
        let ghost q = pieces(s@.take(i as int + 1));
        proof {
            assert(s@.take(i as int + 1).drop_last() =~= s@.take(i as int));
            assert(s@.take(i as int + 1).last() == c);
        }
        if c == '\n' {
            let n: usize = cur.len();
            let ghost whole = cur@;
            if n > 0 && cur[n - 1] == '\r' {
                cur.pop();
                assert(cur@ =~= whole.drop_last());
            }
            assert(cur@ == without_return(whole));
            let ghost o = out@;
            let ended = cur;
            out.push(ended);
            cur = Vec::new();
            proof {
                assert(q.drop_last() =~= p);
                assert(p =~= p.drop_last().push(p.last()));
                assert(cur@ =~= q.last());
                assert(views(out@) =~= views(o).push(without_return(whole)));
                assert(q.drop_last().map_values(strip@) =~= p.drop_last().map_values(strip@).push(
                    without_return(p.last()),
                ));
            }
        } else {
            cur.push(c);
            proof {
                assert(q.drop_last() =~= p.drop_last());
                assert(cur@ =~= q.last());
            }
        }
        i = i + 1;
    }
    assert(s@.take(i as int) =~= s@);
    if cur.len() > 0 {
        let ghost o = out@;
        let last = cur;
        out.push(last);
        assert(views(out@) =~= views(o).push(last@));
    }
    assert(views(out@) =~= lines(s@));
    out
}

/// A text without the white space at its ends.
pub open spec fn trimmed(s: Seq<char>) -> Seq<char>
    decreases s.len(),
{
    if s.len() == 0 {
        s
    } else if is_white(s.first()) {
        trimmed(s.drop_first())
    } else if is_white(s.last()) {
        trimmed(s.drop_last())
    } else {
        s
    }
}

pub fn trim(s: &Vec<char>) -> (r: Vec<char>)
    ensures
        r@ == trimmed(s@),
{
    let mut a: usize = 0;
    let mut b: usize = s.len();
    assert(s@.subrange(0, b as int) =~= s@);
    while a < b && white(s[a])
        invariant
            a <= b <= s@.len(),
            trimmed(s@.subrange(a as int, b as int)) == trimmed(s@),
        decreases b - a,
    {
        proof {
            let t = s@.subrange(a as int, b as int);
            assert(t.drop_first() =~= s@.subrange(a as int + 1, b as int));
        }
        a = a + 1;
    }
    while a < b && white(s[b - 1])
        invariant
            a <= b <= s@.len(),
            a < b ==> !is_white(s@[a as int]),
            trimmed(s@.subrange(a as int, b as int)) == trimmed(s@),
        decreases b - a,
    {
        proof {
            let t = s@.subrange(a as int, b as int);
            assert(t.first() == s@[a as int]);
            assert(t.drop_last() =~= s@.subrange(a as int, b as int - 1));
        }
        b = b - 1;
    }
    let ghost t = s@.subrange(a as int, b as int);
    proof {
        if a < b {
            assert(t.first() == s@[a as int]);
            assert(t.last() == s@[b as int - 1]);
        }
    }
    part(s, a, b)
}

/// The characters from one place to another.
fn part(s: &Vec<char>, a: usize, b: usize) -> (r: Vec<char>)
    requires
        a <= b <= s@.len(),
    ensures
        r@ == s@.subrange(a as int, b as int),
{
    let mut out: Vec<char> = Vec::new();
    let mut i: usize = a;
    while i < b
        invariant
            a <= i <= b <= s@.len(),
            out@ == s@.subrange(a as int, i as int),
        decreases b - i,
    {
        out.push(s[i]);
        assert(out@ =~= s@.subrange(a as int, i as int + 1));
        i = i + 1;
    }
    out
}

/// The place of the first colon at or after a place, or the length where there is
/// none.
pub open spec fn colon_from(s: Seq<char>, i: int) -> int
    decreases s.len() - i,
{
    if i >= s.len() {
        s.len() as int
    } else if s[i] == ':' {
        i
    } else {
        colon_from(s, i + 1)
    }
}

/// What stands before the first colon, and what after.
pub open spec fn cut(s: Seq<char>) -> Option<(Seq<char>, Seq<char>)> {
    let at = colon_from(s, 0);
    if at < s.len() {
        Some((s.take(at), s.skip(at + 1)))
    } else {
        None
    }
}

pub fn split_once(s: &Vec<char>) -> (r: Option<(Vec<char>, Vec<char>)>)
    ensures
        r is Some <==> cut(s@) is Some,
        r matches Some(kv) ==> cut(s@) == Some((kv.0@, kv.1@)),
{
    let mut i: usize = 0;
    while i < s.len() && s[i] != ':'
        invariant
            i <= s@.len(),
            colon_from(s@, i as int) == colon_from(s@, 0),
        decreases s@.len() - i,
    {
        i = i + 1;
    }
    if i == s.len() {
        return None;
    }
    assert(s@.subrange(0, i as int) =~= s@.take(i as int));
    assert(s@.subrange(i as int + 1, s@.len() as int) =~= s@.skip(i as int + 1));
    Some((part(s, 0, i), part(s, i + 1, s.len())))
}

/// A text begins with another.
pub open spec fn begins(s: Seq<char>, key: Seq<char>) -> bool {
    key.len() <= s.len() && s.take(key.len() as int) == key
}

/// Another text stands at this place of a text.
pub open spec fn holds_at(s: Seq<char>, key: Seq<char>, i: int) -> bool {
    0 <= i && i + key.len() <= s.len() && s.subrange(i, i + key.len()) == key
}

/// A text holds another.
pub open spec fn holds(s: Seq<char>, key: Seq<char>) -> bool {
    exists|i: int| #[trigger] holds_at(s, key, i)
}

fn stands_at(s: &Vec<char>, key: &str, at: usize) -> (r: bool)
    requires
        at <= s@.len(),
    ensures
        r == holds_at(s@, key@, at as int),
{
    let n: usize = key.unicode_len();
    let total: usize = s.len();
    if n > total - at {
        return false;
    }
    let mut i: usize = 0;
    while i < n
        invariant
            n == key@.len(),
            i <= n,
            total == s@.len(),
            at + n <= total,
            forall|k: int| 0 <= k < i ==> s@[at + k] == key@[k],
        decreases n - i,
    {
        if s[at + i] != key.get_char(i) {
            proof {
                assert(s@.subrange(at as int, at + n)[i as int] != key@[i as int]);
            }
            return false;
        }
        i = i + 1;
    }
    assert(s@.subrange(at as int, at + n) =~= key@);
    true
}

pub fn starts_with(s: &Vec<char>, key: &str) -> (r: bool)
    ensures
        r == begins(s@, key@),
{
    proof {
        if key@.len() <= s@.len() {
            assert(s@.subrange(0, key@.len() as int) =~= s@.take(key@.len() as int));
        }
    }
    stands_at(s, key, 0)
}

pub fn contains(s: &Vec<char>, key: &str) -> (r: bool)
    ensures
        r == holds(s@, key@),
{
    let mut i: usize = 0;
    while i < s.len()
        invariant
            i <= s@.len(),
            forall|k: int| 0 <= k < i ==> !#[trigger] holds_at(s@, key@, k),
        decreases s@.len() - i,
    {
        if stands_at(s, key, i) {
            return true;
        }
        i = i + 1;
    }
    stands_at(s, key, i)
}

/// The small form of a letter of the ASCII alphabet; any other character as it is.
pub open spec fn small(c: char) -> char {
    if 'A' <= c <= 'Z' {
        ((c as u8 + 32) as u8) as char
    } else {
        c
    }
}

pub open spec fn lowered(s: Seq<char>) -> Seq<char> {
    s.map_values(|c: char| small(c))
}

pub fn to_lower(s: &Vec<char>) -> (r: Vec<char>)
    ensures
        r@ == lowered(s@),
{
    let mut out: Vec<char> = Vec::new();
    let mut i: usize = 0;
    while i < s.len()
        invariant
            i <= s@.len(),
            out@ =~= lowered(s@.take(i as int)),
        decreases s@.len() - i,
    {
        let c: char = s[i];
        if 'A' <= c && c <= 'Z' {
            out.push((c as u8 + 32) as char);
        } else {
            out.push(c);
        }
        assert(out@ =~= lowered(s@.take(i as int + 1)));
        i = i + 1;
    }
    assert(s@.take(i as int) =~= s@);
    out
}

/// Pieces with a line feed between one and the next.
pub open spec fn joined(ps: Seq<Seq<char>>) -> Seq<char>
    decreases ps.len(),
{
    if ps.len() == 0 {
        Seq::empty()
    } else if ps.len() == 1 {
        ps[0]
    } else {
        joined(ps.drop_last()).push('\n') + ps.last()
    }
}

/// The pieces of a text put together again are the text, and no piece has a line feed in it.
pub proof fn law_pieces_make_the_text(s: Seq<char>)
    ensures
        pieces(s).len() > 0,
        joined(pieces(s)) == s,
        forall|i: int| 0 <= i < pieces(s).len() ==> !(#[trigger] pieces(s)[i]).contains('\n'),
    decreases s.len(),
{
    if s.len() == 0 {
        assert(joined(pieces(s)) =~= s);
    } else {
        let rest = s.drop_last();
        let t = pieces(rest);
        let p = pieces(s);
        law_pieces_make_the_text(rest);
        assert(s =~= rest.push(s.last()));
        if s.last() == '\n' {
            assert(p.drop_last() =~= t);
            assert(joined(p) =~= s);
        } else {
            assert(p.drop_last() =~= t.drop_last());
            assert(joined(p) =~= s);
            assert forall|i: int| 0 <= i < p.len() implies !(#[trigger] p[i]).contains('\n') by {
                if i < t.len() - 1 {
                    assert(p[i] == t[i]);
                } else {
                    let l = t[t.len() - 1];
                    assert(p[i] =~= l.push(s.last()));
                    if p[i].contains('\n') {
                        let k = choose|k: int| 0 <= k < p[i].len() && p[i][k] == '\n';
                        assert(l[k] == '\n');
                    }
                }
            }
        }
    }
}

/// What stands before `a` and from `b` on is white space.
#[verifier::opaque]
pub open spec fn white_around(s: Seq<char>, a: int, b: int) -> bool {
    forall|i: int| 0 <= i < s.len() && (i < a || b <= i) ==> is_white(#[trigger] s[i])
}

proof fn lemma_white_first(s: Seq<char>, a: int, b: int)
    requires
        s.len() > 0,
        is_white(s[0]),
        white_around(s.drop_first(), a, b),
    ensures
        white_around(s, a + 1, b + 1),
{
    reveal(white_around);
    let t = s.drop_first();
    assert forall|i: int| 0 <= i < s.len() && (i < a + 1 || b + 1 <= i) implies is_white(
        #[trigger] s[i],
    ) by {
        if i > 0 {
            assert(t[i - 1] == s[i]);
        }
    }
}

proof fn lemma_white_last(s: Seq<char>, a: int, b: int)
    requires
        s.len() > 0,
        is_white(s[s.len() - 1]),
        white_around(s.drop_last(), a, b),
    ensures
        white_around(s, a, b),
{
    reveal(white_around);
    let t = s.drop_last();
    assert forall|i: int| 0 <= i < s.len() && (i < a || b <= i) implies is_white(#[trigger] s[i]) by {
        if i < t.len() {
            assert(t[i] == s[i]);
        }
    }
}

proof fn lemma_trim_ends(s: Seq<char>) -> (r: (int, int))
    ensures
        0 <= r.0 <= r.1 <= s.len(),
        trimmed(s) == s.subrange(r.0, r.1),
        white_around(s, r.0, r.1),
    decreases s.len(),
{
    if s.len() == 0 {
        reveal(white_around);
        assert(trimmed(s) =~= s.subrange(0, 0));
        (0, 0)
    } else if is_white(s.first()) {
        let t = s.drop_first();
        let (a, b) = lemma_trim_ends(t);
        assert(t.subrange(a, b) =~= s.subrange(a + 1, b + 1));
        lemma_white_first(s, a, b);
        (a + 1, b + 1)
    } else if is_white(s.last()) {
        let t = s.drop_last();
        let (a, b) = lemma_trim_ends(t);
        assert(t.subrange(a, b) =~= s.subrange(a, b));
        lemma_white_last(s, a, b);
        (a, b)
    } else {
        reveal(white_around);
        assert(s.subrange(0, s.len() as int) =~= s);
        (0, s.len() as int)
    }
}

/// A text that is trimmed neither begins nor ends with white space, and only white space was
/// taken off it.
pub proof fn law_trimmed_has_no_white_ends(s: Seq<char>)
    ensures
        trimmed(s).len() > 0 ==> !is_white(trimmed(s).first()) && !is_white(trimmed(s).last()),
        exists|a: int, b: int| #[trigger]
            white_around(s, a, b) && 0 <= a <= b <= s.len() && trimmed(s) == s.subrange(a, b),
    decreases s.len(),
{
    let (a, b) = lemma_trim_ends(s);
    assert(white_around(s, a, b));
    lemma_ends(s);
}

proof fn lemma_ends(s: Seq<char>)
    ensures
        trimmed(s).len() > 0 ==> !is_white(trimmed(s).first()) && !is_white(trimmed(s).last()),
    decreases s.len(),
{
    if s.len() > 0 && is_white(s.first()) {
        lemma_ends(s.drop_first());
    } else if s.len() > 0 && is_white(s.last()) {
        lemma_ends(s.drop_last());
    }
}

} // verus!
