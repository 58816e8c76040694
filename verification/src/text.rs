//! Character-level text primitives with their mathematical meaning:
//! whitespace, trimming, searching and building strings.

use vstd::prelude::*;

verus! {

/// The Unicode `White_Space` characters, the set that `char::is_whitespace` accepts.
pub open spec fn is_ws(c: char) -> bool {
    ||| c == '\t'
    ||| c == '\n'
    ||| c == '\x0B'
    ||| c == '\x0C'
    ||| c == '\r'
    ||| c == ' '
    ||| c == '\u{85}'
    ||| c == '\u{A0}'
    ||| c == '\u{1680}'
    ||| ('\u{2000}' <= c && c <= '\u{200A}')
    ||| c == '\u{2028}'
    ||| c == '\u{2029}'
    ||| c == '\u{202F}'
    ||| c == '\u{205F}'
    ||| c == '\u{3000}'
}

/// Whether `c` is Unicode whitespace.
pub fn is_ws_char(c: char) -> (r: bool)
    ensures
        r == is_ws(c),
{
    c == '\t' || c == '\n' || c == '\x0B' || c == '\x0C' || c == '\r' || c == ' ' || c == '\u{85}'
        || c == '\u{A0}' || c == '\u{1680}' || ('\u{2000}' <= c && c <= '\u{200A}') || c
        == '\u{2028}' || c == '\u{2029}' || c == '\u{202F}' || c == '\u{205F}' || c == '\u{3000}'
}

/// `s` with its leading whitespace removed.
pub open spec fn trim_start(s: Seq<char>) -> Seq<char>
    decreases s.len(),
{
    if s.len() > 0 && is_ws(s[0]) {
        trim_start(s.drop_first())
    } else {
        s
    }
}

/// `s` with its trailing whitespace removed.
pub open spec fn trim_end(s: Seq<char>) -> Seq<char>
    decreases s.len(),
{
    if s.len() > 0 && is_ws(s.last()) {
        trim_end(s.drop_last())
    } else {
        s
    }
}

/// `s` with leading and trailing whitespace removed, as `str::trim` does.
pub open spec fn trim(s: Seq<char>) -> Seq<char> {
    trim_end(trim_start(s))
}

/// The index of the first `c` in `s`, if any.
pub open spec fn first_index(s: Seq<char>, c: char) -> Option<int>
    decreases s.len(),
{
    if s.len() == 0 {
        None
    } else if s[0] == c {
        Some(0)
    } else {
        match first_index(s.drop_first(), c) {
            Some(i) => Some(i + 1),
            None => None,
        }
    }
}

/// The index of the last `c` in `s`, if any.
pub open spec fn last_index(s: Seq<char>, c: char) -> Option<int>
    decreases s.len(),
{
    if s.len() == 0 {
        None
    } else if s.last() == c {
        Some(s.len() - 1)
    } else {
        last_index(s.drop_last(), c)
    }
}

/// `first_index` is the position before which `c` does not occur.
pub proof fn lemma_first_index(s: Seq<char>, c: char, k: int)
    requires
        0 <= k <= s.len(),
        forall|i: int| 0 <= i < k ==> s[i] != c,
        k < s.len() ==> s[k] == c,
    ensures
        first_index(s, c) == (if k < s.len() {
            Some(k)
        } else {
            None::<int>
        }),
    decreases k,
{
    if k > 0 {
        lemma_first_index(s.drop_first(), c, k - 1);
    }
}

/// `first_index` points at an occurrence, and nothing before it matches.
pub proof fn lemma_first_index_found(s: Seq<char>, c: char)
    ensures
        first_index(s, c) matches Some(k) ==> 0 <= k < s.len() && s[k] == c && forall|i: int|
            0 <= i < k ==> s[i] != c,
        first_index(s, c) is None ==> forall|i: int| 0 <= i < s.len() ==> s[i] != c,
    decreases s.len(),
{
    if s.len() > 0 {
        lemma_first_index_found(s.drop_first(), c);
        if first_index(s, c) is None {
            assert forall|i: int| 0 <= i < s.len() implies s[i] != c by {
                if i > 0 {
                    assert(s[i] == s.drop_first()[i - 1]);
                }
            }
        }
        if let Some(k) = first_index(s, c) {
            assert forall|i: int| 0 <= i < k implies s[i] != c by {
                if i > 0 {
                    assert(s[i] == s.drop_first()[i - 1]);
                }
            }
        }
    }
}

/// `last_index` is the position after which `c` does not occur.
pub proof fn lemma_last_index(s: Seq<char>, c: char, k: int)
    requires
        -1 <= k < s.len(),
        forall|i: int| k < i < s.len() ==> s[i] != c,
        k >= 0 ==> s[k] == c,
    ensures
        last_index(s, c) == (if k >= 0 {
            Some(k)
        } else {
            None::<int>
        }),
    decreases s.len(),
{
    if s.len() > 0 && k < s.len() - 1 {
        lemma_last_index(s.drop_last(), c, k);
    }
}

/// `last_index` points at an occurrence, and nothing after it matches.
pub proof fn lemma_last_index_found(s: Seq<char>, c: char)
    ensures
        last_index(s, c) matches Some(k) ==> 0 <= k < s.len() && s[k] == c && forall|i: int|
            k < i < s.len() ==> s[i] != c,
        last_index(s, c) is None ==> forall|i: int| 0 <= i < s.len() ==> s[i] != c,
    decreases s.len(),
{
    if s.len() > 0 {
        lemma_last_index_found(s.drop_last(), c);
        if let Some(k) = last_index(s, c) {
            if s.last() != c {
                assert forall|i: int| k < i < s.len() implies s[i] != c by {
                    if i < s.len() - 1 {
                        assert(s[i] == s.drop_last()[i]);
                    }
                }
                assert(s[k] == s.drop_last()[k]);
            }
        }
        if last_index(s, c) is None {
            assert forall|i: int| 0 <= i < s.len() implies s[i] != c by {
                if i < s.len() - 1 {
                    assert(s[i] == s.drop_last()[i]);
                }
            }
        }
    }
}

/// `String::push`: appends `c` at the end of `s`.
#[verifier::external_body]
pub(crate) fn push_char(s: &mut String, c: char)
    ensures
        final(s)@ == old(s)@.push(c),
{
    s.push(c)
}

/// The characters of `s`, in order.
pub fn chars_of(s: &str) -> (v: Vec<char>)
    ensures
        v@ == s@,
{
    broadcast use vstd::string::group_string_axioms;

    let mut v: Vec<char> = Vec::new();
    for c in it: s.chars()
        invariant
            v@ == it.seq().take(it.index() as int),
            it.seq() == s@,
    {
        v.push(c);
    }
    v
}

/// The string made of `v[lo..hi]`.
pub fn string_of(v: &Vec<char>, lo: usize, hi: usize) -> (s: String)
    requires
        lo <= hi <= v.len(),
    ensures
        s@ == v@.subrange(lo as int, hi as int),
{
    let mut s = String::new();
    let mut i = lo;
    while i < hi
        invariant
            lo <= i <= hi <= v.len(),
            s@ == v@.subrange(lo as int, i as int),
        decreases hi - i,
    {
        push_char(&mut s, v[i]);
        assert(v@.subrange(lo as int, i + 1) =~= v@.subrange(lo as int, i as int).push(v@[i as int]));
        i = i + 1;
    }
    s
}

/// The bounds of `trim(v[lo..hi])` within `v`.
pub fn trim_range(v: &Vec<char>, lo: usize, hi: usize) -> (r: (usize, usize))
    requires
        lo <= hi <= v.len(),
    ensures
        lo <= r.0 <= r.1 <= hi,
        v@.subrange(r.0 as int, r.1 as int) == trim(v@.subrange(lo as int, hi as int)),
{
    let mut a = lo;
    while a < hi && is_ws_char(v[a])
        invariant
            lo <= a <= hi <= v.len(),
            trim_start(v@.subrange(lo as int, hi as int)) == trim_start(
                v@.subrange(a as int, hi as int),
            ),
        decreases hi - a,
    {
        assert(v@.subrange(a as int, hi as int).drop_first() =~= v@.subrange(a + 1, hi as int));
        a = a + 1;
    }
    let mut b = hi;
    while b > a && is_ws_char(v[b - 1])
        invariant
            lo <= a <= b <= hi <= v.len(),
            trim_end(v@.subrange(a as int, hi as int)) == trim_end(v@.subrange(a as int, b as int)),
        decreases b - a,
    {
        assert(v@.subrange(a as int, b as int).drop_last() =~= v@.subrange(a as int, b - 1));
        b = b - 1;
    }
    (a, b)
}

/// `str::trim`, as an owned string.
pub fn trimmed(s: &str) -> (r: String)
    ensures
        r@ == trim(s@),
{
    let v = chars_of(s);
    let (a, b) = trim_range(&v, 0, v.len());
    assert(v@.subrange(0, v@.len() as int) =~= v@);
    string_of(&v, a, b)
}


/// `s` without one trailing carriage return.
pub open spec fn strip_cr(s: Seq<char>) -> Seq<char> {
    if s.len() > 0 && s.last() == '\r' {
        s.drop_last()
    } else {
        s
    }
}

/// The lines of `s`, as `str::lines` yields them: split at each `\n`, a `\r`
/// right before the `\n` dropped, and no empty line after a final `\n`.
pub open spec fn lines(s: Seq<char>) -> Seq<Seq<char>>
    decreases s.len(),
{
    if s.len() == 0 {
        seq![]
    } else {
        match first_index(s, '\n') {
            None => seq![s],
            Some(k) => {
                proof {
                    lemma_first_index_found(s, '\n');
                }
                seq![strip_cr(s.take(k))] + lines(s.skip(k + 1))
            },
        }
    }
}

/// No line break in `s`.
pub open spec fn single_line(s: Seq<char>) -> bool {
    forall|i: int| 0 <= i < s.len() ==> s[i] != '\n'
}

/// The text whose lines are `ls`: each line followed by a `\n`.
pub open spec fn joined(ls: Seq<Seq<char>>) -> Seq<char>
    decreases ls.len(),
{
    if ls.len() == 0 {
        seq![]
    } else {
        ls[0] + seq!['\n'] + joined(ls.drop_first())
    }
}

/// Writing one more line appends it and its `\n` to the text.
pub proof fn lemma_joined_push(ls: Seq<Seq<char>>, l: Seq<char>)
    ensures
        joined(ls.push(l)) == joined(ls) + l + seq!['\n'],
    decreases ls.len(),
{
    if ls.len() == 0 {
        let e = Seq::<Seq<char>>::empty();
        assert(ls.push(l).drop_first() =~= e);
        assert(joined(e) == Seq::<char>::empty());
        assert(ls.push(l)[0] == l);
        assert(joined(ls.push(l)) == l + seq!['\n'] + joined(e));
        assert(joined(ls) == Seq::<char>::empty());
        assert(joined(ls.push(l)) =~= joined(ls) + l + seq!['\n']);
    } else {
        lemma_joined_push(ls.drop_first(), l);
        assert(ls.push(l).drop_first() =~= ls.drop_first().push(l));
        assert(ls.push(l)[0] == ls[0]);
        assert(joined(ls.push(l)) == ls[0] + seq!['\n'] + joined(ls.drop_first().push(l)));
        assert(joined(ls) == ls[0] + seq!['\n'] + joined(ls.drop_first()));
        assert(joined(ls.push(l)) =~= joined(ls) + l + seq!['\n']);
    }
}

/// Reading the lines of a text written line by line gives the lines back,
/// each without a trailing carriage return, as `str::lines` drops it.
pub proof fn lemma_lines_joined(ls: Seq<Seq<char>>)
    requires
        forall|i: int| 0 <= i < ls.len() ==> single_line(#[trigger] ls[i]),
    ensures
        lines(joined(ls)) == ls.map_values(|l: Seq<char>| strip_cr(l)),
    decreases ls.len(),
{
    if ls.len() == 0 {
        assert(ls.map_values(|l: Seq<char>| strip_cr(l)) =~= Seq::<Seq<char>>::empty());
    } else {
        let rest = ls.drop_first();
        assert forall|i: int| 0 <= i < rest.len() implies single_line(#[trigger] rest[i]) by {
            assert(rest[i] == ls[i + 1]);
        }
        lemma_lines_joined(rest);
        let s = joined(ls);
        let k = ls[0].len() as int;
        assert(single_line(ls[0]));
        assert forall|i: int| 0 <= i < k implies s[i] != '\n' by {
            assert(s[i] == ls[0][i]);
        }
        lemma_first_index(s, '\n', k);
        assert(s.take(k) =~= ls[0]);
        assert(s.skip(k + 1) =~= joined(rest));
        assert(ls.map_values(|l: Seq<char>| strip_cr(l)) =~= seq![strip_cr(ls[0])]
            + rest.map_values(|l: Seq<char>| strip_cr(l)));
    }
}

/// The text of two runs of lines is the text of the first, then of the second.
pub proof fn lemma_joined_concat(x: Seq<Seq<char>>, y: Seq<Seq<char>>)
    ensures
        joined(x + y) == joined(x) + joined(y),
    decreases x.len(),
{
    if x.len() == 0 {
        assert(x + y =~= y);
        assert(joined(x) + joined(y) =~= joined(y));
    } else {
        lemma_joined_concat(x.drop_first(), y);
        assert((x + y).drop_first() =~= x.drop_first() + y);
        assert((x + y)[0] == x[0]);
        assert(joined(x + y) =~= joined(x) + joined(y));
    }
}

/// A text written line by line is empty or ends with a `\n`.
pub proof fn lemma_joined_ends(ls: Seq<Seq<char>>)
    ensures
        joined(ls).len() == 0 || joined(ls).last() == '\n',
    decreases ls.len(),
{
    if ls.len() > 0 {
        lemma_joined_ends(ls.drop_first());
    }
}

/// The lines of a text that ends with a `\n`, followed by more text, are its
/// lines followed by the lines of the rest.
pub proof fn lemma_lines_concat(a: Seq<char>, b: Seq<char>)
    requires
        a.len() == 0 || a.last() == '\n',
    ensures
        lines(a + b) == lines(a) + lines(b),
    decreases a.len(),
{
    if a.len() == 0 {
        assert(a + b =~= b);
        assert(lines(a) =~= Seq::<Seq<char>>::empty());
        assert(lines(a) + lines(b) =~= lines(b));
    } else {
        lemma_first_index_found(a, '\n');
        let k = first_index(a, '\n')->Some_0;
        assert forall|i: int| 0 <= i < k implies (a + b)[i] != '\n' by {
            assert((a + b)[i] == a[i]);
        }
        assert((a + b)[k] == a[k]);
        lemma_first_index(a + b, '\n', k);
        let rest = a.skip(k + 1);
        if rest.len() > 0 {
            assert(rest.last() == a.last());
        }
        lemma_lines_concat(rest, b);
        assert((a + b).take(k) =~= a.take(k));
        assert((a + b).skip(k + 1) =~= rest + b);
        assert(lines(a + b) =~= lines(a) + lines(b));
    }
}

/// Trimming the end of a text that continues `p` leaves `p` whole when `p`
/// ends in a character that is not whitespace.
pub proof fn lemma_trim_end_concat(p: Seq<char>, s: Seq<char>)
    requires
        p.len() > 0,
        !is_ws(p.last()),
    ensures
        trim_end(p + s) == p + trim_end(s),
    decreases s.len(),
{
    if s.len() == 0 {
        assert(p + s =~= p);
        assert(p + trim_end(s) =~= p);
    } else if is_ws(s.last()) {
        assert((p + s).drop_last() =~= p + s.drop_last());
        lemma_trim_end_concat(p, s.drop_last());
    } else {
        assert((p + s).last() == s.last());
    }
}

/// The text of each range of `v` listed in `r`.
pub open spec fn pieces(v: Seq<char>, r: Seq<(usize, usize)>) -> Seq<Seq<char>> {
    r.map_values(|p: (usize, usize)| v.subrange(p.0 as int, p.1 as int))
}

/// Whether every range in `r` lies within `v`.
pub open spec fn ranges_within(r: Seq<(usize, usize)>, n: int) -> bool {
    forall|i: int| 0 <= i < r.len() ==> (#[trigger] r[i]).0 <= r[i].1 <= n
}

/// The ranges of the lines of `v` (see `lines`).
pub fn line_ranges(v: &Vec<char>) -> (r: Vec<(usize, usize)>)
    ensures
        ranges_within(r@, v@.len() as int),
        pieces(v@, r@) == lines(v@),
{
    let n = v.len();
    let mut r: Vec<(usize, usize)> = Vec::new();
    let mut pos: usize = 0;
    assert(v@.subrange(0, n as int) =~= v@);
    assert(pieces(v@, r@) + lines(v@) =~= lines(v@));
    while pos < n
        invariant
            n == v.len(),
            pos <= n,
            ranges_within(r@, n as int),
            lines(v@) == pieces(v@, r@) + lines(v@.subrange(pos as int, n as int)),
        decreases n - pos,
    {
        let ghost suffix = v@.subrange(pos as int, n as int);
        let mut j = pos;
        while j < n && v[j] != '\n'
            invariant
                pos <= j <= n == v.len(),
                forall|i: int| pos <= i < j ==> v@[i] != '\n',
            decreases n - j,
        {
            j = j + 1;
        }
        proof {
            lemma_first_index(suffix, '\n', j - pos);
        }
        let ghost old_r = r@;
        if j == n {
            r.push((pos, n));
            assert(suffix =~= v@.subrange(pos as int, n as int));
            assert(pieces(v@, r@) =~= pieces(v@, old_r) + seq![suffix]);
            assert(lines(v@.subrange(n as int, n as int)) =~= Seq::<Seq<char>>::empty());
            pos = n;
        } else {
            let mut end = j;
            if end > pos && v[end - 1] == '\r' {
                end = end - 1;
            }
            r.push((pos, end));
            assert(suffix.take(j - pos) =~= v@.subrange(pos as int, j as int));
            assert(suffix.skip(j - pos + 1) =~= v@.subrange(j + 1, n as int));
            assert(strip_cr(suffix.take(j - pos)) =~= v@.subrange(pos as int, end as int));
            assert(pieces(v@, r@) =~= pieces(v@, old_r) + seq![v@.subrange(pos as int, end as int)]);
            pos = j + 1;
        }
    }
    assert(lines(v@.subrange(n as int, n as int)) =~= Seq::<Seq<char>>::empty());
    assert(pieces(v@, r@) + Seq::<Seq<char>>::empty() =~= pieces(v@, r@));
    r
}

/// `s` starts with `p`.
pub open spec fn starts_with(s: Seq<char>, p: Seq<char>) -> bool {
    p.len() <= s.len() && s.take(p.len() as int) == p
}

/// `s` ends with `p`.
pub open spec fn ends_with(s: Seq<char>, p: Seq<char>) -> bool {
    p.len() <= s.len() && s.skip(s.len() - p.len()) == p
}

/// `p` occurs in `s` at position `i`.
pub open spec fn occurs_at(s: Seq<char>, p: Seq<char>, i: int) -> bool {
    0 <= i && i + p.len() <= s.len() && s.subrange(i, i + p.len()) == p
}

/// `p` occurs somewhere in `s`, as `str::contains` tests.
pub open spec fn contains(s: Seq<char>, p: Seq<char>) -> bool {
    exists|i: int| occurs_at(s, p, i)
}

/// Whether `v[lo..hi]` equals `p`.
pub fn range_is(v: &Vec<char>, lo: usize, hi: usize, p: &Vec<char>) -> (r: bool)
    requires
        lo <= hi <= v.len(),
    ensures
        r == (v@.subrange(lo as int, hi as int) == p@),
{
    if hi - lo != p.len() {
        return false;
    }
    let mut i: usize = 0;
    while i < p.len()
        invariant
            lo <= hi <= v.len(),
            hi - lo == p.len(),
            i <= p.len(),
            forall|k: int| 0 <= k < i ==> v@[lo + k] == p@[k],
        decreases p.len() - i,
    {
        if v[lo + i] != p[i] {
            assert(v@.subrange(lo as int, hi as int)[i as int] != p@[i as int]);
            return false;
        }
        i = i + 1;
    }
    assert(v@.subrange(lo as int, hi as int) =~= p@);
    true
}

/// Whether `p` occurs in `v[lo..hi]`.
pub fn range_contains(v: &Vec<char>, lo: usize, hi: usize, p: &Vec<char>) -> (r: bool)
    requires
        lo <= hi <= v.len(),
    ensures
        r == contains(v@.subrange(lo as int, hi as int), p@),
{
    let ghost s = v@.subrange(lo as int, hi as int);
    if p.len() > hi - lo {
        return false;
    }
    let last = hi - p.len();
    let mut i = lo;
    loop
        invariant
            lo <= i <= last,
            last + p.len() == hi <= v.len(),
            s == v@.subrange(lo as int, hi as int),
            forall|k: int| 0 <= k < i - lo ==> !occurs_at(s, p@, k),
        decreases last - i,
    {
        assert(s.subrange(i - lo, i - lo + p.len()) =~= v@.subrange(i as int, i + p.len()));
        if range_is(v, i, i + p.len(), p) {
            assert(occurs_at(s, p@, i - lo));
            return true;
        }
        if i == last {
            assert forall|k: int| !occurs_at(s, p@, k) by {
                if 0 <= k && k + p@.len() <= s.len() {
                    assert(k < i - lo + 1);
                }
            }
            return false;
        }
        i = i + 1;
    }
}

/// Whether `p` occurs in `s` (`str::contains`).
pub fn str_contains(s: &str, p: &str) -> (r: bool)
    ensures
        r == contains(s@, p@),
{
    let v = chars_of(s);
    let pv = chars_of(p);
    assert(v@.subrange(0, v@.len() as int) =~= v@);
    range_contains(&v, 0, v.len(), &pv)
}


/// The index of the first whitespace character of `s`, if any.
pub open spec fn first_ws(s: Seq<char>) -> Option<int>
    decreases s.len(),
{
    if s.len() == 0 {
        None
    } else if is_ws(s[0]) {
        Some(0)
    } else {
        match first_ws(s.drop_first()) {
            Some(i) => Some(i + 1),
            None => None,
        }
    }
}

/// `first_ws` is the position before which no whitespace occurs.
pub proof fn lemma_first_ws(s: Seq<char>, k: int)
    requires
        0 <= k <= s.len(),
        forall|i: int| 0 <= i < k ==> !is_ws(#[trigger] s[i]),
        k < s.len() ==> is_ws(s[k]),
    ensures
        first_ws(s) == (if k < s.len() {
            Some(k)
        } else {
            None::<int>
        }),
    decreases k,
{
    if k > 0 {
        assert forall|i: int| 0 <= i < k - 1 implies !is_ws(#[trigger] s.drop_first()[i]) by {
            assert(s.drop_first()[i] == s[i + 1]);
        }
        lemma_first_ws(s.drop_first(), k - 1);
    }
}

/// The whitespace-separated words of `s`, as `str::split_whitespace` yields them.
pub open spec fn words(s: Seq<char>) -> Seq<Seq<char>>
    decreases s.len(),
{
    let t = trim_start(s);
    if t.len() == 0 {
        seq![]
    } else {
        match first_ws(t) {
            None => seq![t],
            Some(k) => {
                proof {
                    lemma_trim_start_len(s);
                    lemma_first_ws_found(t);
                }
                seq![t.take(k)] + words(t.skip(k))
            },
        }
    }
}

/// `trim_start` only ever removes characters, and what it keeps does not start with whitespace.
pub proof fn lemma_trim_start_len(s: Seq<char>)
    ensures
        trim_start(s).len() <= s.len(),
        trim_start(s).len() > 0 ==> !is_ws(trim_start(s)[0]),
    decreases s.len(),
{
    if s.len() > 0 && is_ws(s[0]) {
        lemma_trim_start_len(s.drop_first());
    }
}

/// `first_ws` points at whitespace, and nothing before it is whitespace.
pub proof fn lemma_first_ws_found(s: Seq<char>)
    ensures
        first_ws(s) matches Some(k) ==> 0 <= k < s.len() && is_ws(s[k]) && forall|i: int|
            0 <= i < k ==> !is_ws(#[trigger] s[i]),
    decreases s.len(),
{
    if s.len() > 0 {
        lemma_first_ws_found(s.drop_first());
        if let Some(k) = first_ws(s) {
            if k > 0 {
                assert(s[k] == s.drop_first()[k - 1]);
                assert forall|i: int| 0 <= i < k implies !is_ws(#[trigger] s[i]) by {
                    if i > 0 {
                        assert(s[i] == s.drop_first()[i - 1]);
                    }
                }
            }
        }
    }
}

/// The ranges of the words of `v[lo..hi]` (see `words`).
pub fn word_ranges(v: &Vec<char>, lo: usize, hi: usize) -> (r: Vec<(usize, usize)>)
    requires
        lo <= hi <= v.len(),
    ensures
        ranges_within(r@, v@.len() as int),
        pieces(v@, r@) == words(v@.subrange(lo as int, hi as int)),
{
    let mut r: Vec<(usize, usize)> = Vec::new();
    let mut pos = lo;
    assert(pieces(v@, r@) + words(v@.subrange(lo as int, hi as int)) =~= words(
        v@.subrange(lo as int, hi as int),
    ));
    while pos < hi
        invariant
            lo <= pos <= hi <= v.len(),
            ranges_within(r@, v@.len() as int),
            words(v@.subrange(lo as int, hi as int)) == pieces(v@, r@) + words(
                v@.subrange(pos as int, hi as int),
            ),
        decreases hi - pos,
    {
        let mut a = pos;
        while a < hi && is_ws_char(v[a])
            invariant
                pos <= a <= hi <= v.len(),
                trim_start(v@.subrange(pos as int, hi as int)) == trim_start(
                    v@.subrange(a as int, hi as int),
                ),
            decreases hi - a,
        {
            assert(v@.subrange(a as int, hi as int).drop_first() =~= v@.subrange(a + 1, hi as int));
            a = a + 1;
        }
        let ghost t = v@.subrange(a as int, hi as int);
        assert(trim_start(v@.subrange(pos as int, hi as int)) == t);
        if a == hi {
            assert(words(v@.subrange(pos as int, hi as int)) =~= Seq::<Seq<char>>::empty());
            assert(words(v@.subrange(hi as int, hi as int)) =~= Seq::<Seq<char>>::empty());
            pos = hi;
        } else {
            let mut b = a;
            while b < hi && !is_ws_char(v[b])
                invariant
                    a <= b <= hi <= v.len(),
                    forall|i: int| a <= i < b ==> !is_ws(#[trigger] v@[i]),
                decreases hi - b,
            {
                b = b + 1;
            }
            proof {
                assert forall|i: int| 0 <= i < b - a implies !is_ws(#[trigger] t[i]) by {
                    assert(t[i] == v@[a + i]);
                }
                lemma_first_ws(t, b - a);
            }
            let ghost old_r = r@;
            r.push((a, b));
            assert(t.take(b - a) =~= v@.subrange(a as int, b as int));
            assert(t.skip(b - a) =~= v@.subrange(b as int, hi as int));
            assert(pieces(v@, r@) =~= pieces(v@, old_r) + seq![v@.subrange(a as int, b as int)]);
            if b == hi {
                assert(words(v@.subrange(hi as int, hi as int)) =~= Seq::<Seq<char>>::empty());
            }
            pos = b;
        }
    }
    assert(words(v@.subrange(hi as int, hi as int)) =~= Seq::<Seq<char>>::empty());
    assert(pieces(v@, r@) + Seq::<Seq<char>>::empty() =~= pieces(v@, r@));
    r
}

/// The item right after the first occurrence of `key` in `ws` that has a
/// successor: what `ws.windows(2).find_map(|w| (w[0] == key).then(|| w[1]))` finds.
pub open spec fn after_key(ws: Seq<Seq<char>>, key: Seq<char>) -> Option<Seq<char>>
    decreases ws.len(),
{
    if ws.len() < 2 {
        None
    } else if ws[0] == key {
        Some(ws[1])
    } else {
        after_key(ws.drop_first(), key)
    }
}

/// Looks up the range that follows the first range equal to `key` (see `after_key`).
pub fn range_after_key(v: &Vec<char>, r: &Vec<(usize, usize)>, key: &Vec<char>) -> (res: Option<
    (usize, usize),
>)
    requires
        ranges_within(r@, v@.len() as int),
    ensures
        res is Some == after_key(pieces(v@, r@), key@) is Some,
        res matches Some(p) ==> p.0 <= p.1 <= v@.len() && after_key(pieces(v@, r@), key@)
            == Some(v@.subrange(p.0 as int, p.1 as int)),
{
    let ghost ps = pieces(v@, r@);
    let mut i: usize = 0;
    assert(ps.skip(0) =~= ps);
    while r.len() - i >= 2
        invariant
            ranges_within(r@, v@.len() as int),
            ps == pieces(v@, r@),
            i <= r.len(),
            after_key(ps, key@) == after_key(ps.skip(i as int), key@),
        decreases r.len() - i,
    {
        let (a, b) = r[i];
        assert(ps.skip(i as int)[0] == ps[i as int]);
        assert(ps.skip(i as int)[1] == ps[i + 1]);
        if range_is(v, a, b, key) {
            return Some(r[i + 1]);
        }
        assert(ps.skip(i as int).drop_first() =~= ps.skip(i + 1));
        i = i + 1;
    }
    None
}

/// The second `:`-separated field of `s`: what `s.split(':').nth(1)` yields.
pub open spec fn second_field(s: Seq<char>) -> Option<Seq<char>> {
    match first_index(s, ':') {
        None => None,
        Some(a) => {
            let rest = s.skip(a + 1);
            match first_index(rest, ':') {
                None => Some(rest),
                Some(b) => Some(rest.take(b)),
            }
        },
    }
}

/// The range of `second_field(v[lo..hi])`.
pub fn second_field_range(v: &Vec<char>, lo: usize, hi: usize) -> (res: Option<(usize, usize)>)
    requires
        lo <= hi <= v.len(),
    ensures
        res is Some == second_field(v@.subrange(lo as int, hi as int)) is Some,
        res matches Some(p) ==> lo <= p.0 <= p.1 <= hi && second_field(
            v@.subrange(lo as int, hi as int),
        ) == Some(v@.subrange(p.0 as int, p.1 as int)),
{
    let ghost s = v@.subrange(lo as int, hi as int);
    let mut a = lo;
    while a < hi && v[a] != ':'
        invariant
            lo <= a <= hi <= v.len(),
            forall|i: int| lo <= i < a ==> v@[i] != ':',
        decreases hi - a,
    {
        a = a + 1;
    }
    proof {
        lemma_first_index(s, ':', a - lo);
    }
    if a == hi {
        return None;
    }
    let ghost rest = s.skip(a - lo + 1);
    assert(rest =~= v@.subrange(a + 1, hi as int));
    let mut b = a + 1;
    while b < hi && v[b] != ':'
        invariant
            a < b <= hi <= v.len(),
            forall|i: int| a + 1 <= i < b ==> v@[i] != ':',
        decreases hi - b,
    {
        b = b + 1;
    }
    proof {
        lemma_first_index(rest, ':', b - a - 1);
    }
    assert(rest.take(b - a - 1) =~= v@.subrange(a + 1, b as int));
    Some((a + 1, b))
}

/// The ASCII decimal digit of value `d`.
pub open spec fn digit_char(d: nat) -> char {
    ((48 + d) as u8) as char
}

/// Whether `c` is an ASCII decimal digit.
pub open spec fn is_digit(c: char) -> bool {
    '0' <= c && c <= '9'
}

/// The value of the ASCII digit `c`.
pub open spec fn digit_value(c: char) -> nat {
    (c as int - 48) as nat
}

/// The decimal representation of `n`, as `to_string` writes it.
pub open spec fn decimal(n: nat) -> Seq<char>
    decreases n,
{
    if n < 10 {
        seq![digit_char(n)]
    } else {
        decimal(n / 10) + seq![digit_char(n % 10)]
    }
}

/// The decimal representation of `n`.
pub fn decimal_string(n: u64) -> (s: String)
    ensures
        s@ == decimal(n as nat),
    decreases n,
{
    if n < 10 {
        let mut s = String::new();
        push_char(&mut s, ((n as u8) + 48u8) as char);
        assert(s@ =~= decimal(n as nat));
        s
    } else {
        let mut s = decimal_string(n / 10);
        push_char(&mut s, (((n % 10) as u8) + 48u8) as char);
        s
    }
}

/// Every character of `s` is an ASCII digit.
pub open spec fn all_digits(s: Seq<char>) -> bool {
    forall|i: int| 0 <= i < s.len() ==> is_digit(#[trigger] s[i])
}

/// The value of the decimal numeral `s`.
pub open spec fn numeral_value(s: Seq<char>) -> nat
    decreases s.len(),
{
    if s.len() == 0 {
        0
    } else {
        numeral_value(s.drop_last()) * 10 + digit_value(s.last())
    }
}

/// What `s.parse::<u8>()` accepts: an optional `+` and then ASCII digits whose value fits in a `u8`.
pub open spec fn parse_u8(s: Seq<char>) -> Option<u8> {
    let d = if s.len() > 1 && s[0] == '+' {
        s.drop_first()
    } else {
        s
    };
    if d.len() > 0 && all_digits(d) && numeral_value(d) <= 255 {
        Some(numeral_value(d) as u8)
    } else {
        None
    }
}

/// Parses `v[lo..hi]` as a `u8` (see `parse_u8`).
pub fn parse_u8_range(v: &Vec<char>, lo: usize, hi: usize) -> (r: Option<u8>)
    requires
        lo <= hi <= v.len(),
    ensures
        r == parse_u8(v@.subrange(lo as int, hi as int)),
{
    let ghost s = v@.subrange(lo as int, hi as int);
    let mut start = lo;
    if hi - lo > 1 && v[lo] == '+' {
        start = lo + 1;
    }
    let ghost d = v@.subrange(start as int, hi as int);
    assert(d =~= (if s.len() > 1 && s[0] == '+' {
        s.drop_first()
    } else {
        s
    }));
    if start == hi {
        return None;
    }
    let mut value: u32 = 0;
    let mut i = start;
    while i < hi
        invariant
            start <= i <= hi <= v.len(),
            d == v@.subrange(start as int, hi as int),
            s == v@.subrange(lo as int, hi as int),
            d == (if s.len() > 1 && s[0] == '+' {
                s.drop_first()
            } else {
                s
            }),
            d.len() > 0,
            all_digits(v@.subrange(start as int, i as int)),
            value as nat == if numeral_value(v@.subrange(start as int, i as int)) < 256 {
                numeral_value(v@.subrange(start as int, i as int))
            } else {
                256
            },
        decreases hi - i,
    {
        let c = v[i];
        if !('0' <= c && c <= '9') {
            assert(d[i - start] == c);
            assert(!is_digit(d[i - start]));
            assert(!all_digits(d));
            return None;
        }
        let ghost prev = v@.subrange(start as int, i as int);
        assert(v@.subrange(start as int, i + 1).drop_last() =~= prev);
        let next = value * 10 + ((c as u32) - 48);
        value = if next < 256 {
            next
        } else {
            256
        };
        assert(all_digits(v@.subrange(start as int, i + 1))) by {
            assert forall|k: int| 0 <= k < i + 1 - start implies is_digit(
                #[trigger] v@.subrange(start as int, i + 1)[k],
            ) by {
                if k < i - start {
                    assert(v@.subrange(start as int, i + 1)[k] == prev[k]);
                }
            }
        }
        i = i + 1;
    }
    if value < 256 {
        Some(value as u8)
    } else {
        None
    }
}


/// Whether `v[lo..hi]` starts with `p`.
pub fn range_starts_with(v: &Vec<char>, lo: usize, hi: usize, p: &Vec<char>) -> (r: bool)
    requires
        lo <= hi <= v.len(),
    ensures
        r == starts_with(v@.subrange(lo as int, hi as int), p@),
{
    if p.len() > hi - lo {
        return false;
    }
    assert(v@.subrange(lo as int, hi as int).take(p@.len() as int) =~= v@.subrange(
        lo as int,
        lo + p.len(),
    ));
    range_is(v, lo, lo + p.len(), p)
}

/// Whether `v[lo..hi]` ends with `p`.
pub fn range_ends_with(v: &Vec<char>, lo: usize, hi: usize, p: &Vec<char>) -> (r: bool)
    requires
        lo <= hi <= v.len(),
    ensures
        r == ends_with(v@.subrange(lo as int, hi as int), p@),
{
    if p.len() > hi - lo {
        return false;
    }
    assert(v@.subrange(lo as int, hi as int).skip(hi - lo - p@.len()) =~= v@.subrange(
        hi - p.len(),
        hi as int,
    ));
    range_is(v, hi - p.len(), hi, p)
}

/// The index of the first `c` in `v[lo..hi]`, as a position in `v`.
pub fn find_char(v: &Vec<char>, lo: usize, hi: usize, c: char) -> (r: Option<usize>)
    requires
        lo <= hi <= v.len(),
    ensures
        r is Some == first_index(v@.subrange(lo as int, hi as int), c) is Some,
        r matches Some(i) ==> lo <= i < hi && first_index(v@.subrange(lo as int, hi as int), c)
            == Some(i - lo),
{
    let mut i = lo;
    while i < hi && v[i] != c
        invariant
            lo <= i <= hi <= v.len(),
            forall|k: int| lo <= k < i ==> v@[k] != c,
        decreases hi - i,
    {
        i = i + 1;
    }
    proof {
        lemma_first_index(v@.subrange(lo as int, hi as int), c, i - lo);
    }
    if i == hi {
        None
    } else {
        Some(i)
    }
}

/// The index of the last `c` in `v[lo..hi]`, as a position in `v`.
pub fn rfind_char(v: &Vec<char>, lo: usize, hi: usize, c: char) -> (r: Option<usize>)
    requires
        lo <= hi <= v.len(),
    ensures
        r is Some == last_index(v@.subrange(lo as int, hi as int), c) is Some,
        r matches Some(i) ==> lo <= i < hi && last_index(v@.subrange(lo as int, hi as int), c)
            == Some(i - lo),
{
    let mut i = hi;
    while i > lo && v[i - 1] != c
        invariant
            lo <= i <= hi <= v.len(),
            forall|k: int| i <= k < hi ==> v@[k] != c,
        decreases i - lo,
    {
        i = i - 1;
    }
    proof {
        lemma_last_index(v@.subrange(lo as int, hi as int), c, i - lo - 1);
    }
    if i == lo {
        None
    } else {
        Some(i - 1)
    }
}

/// Whether every character of `v[lo..hi]` is an ASCII digit.
pub fn range_all_digits(v: &Vec<char>, lo: usize, hi: usize) -> (r: bool)
    requires
        lo <= hi <= v.len(),
    ensures
        r == all_digits(v@.subrange(lo as int, hi as int)),
{
    let mut i = lo;
    while i < hi
        invariant
            lo <= i <= hi <= v.len(),
            forall|k: int| lo <= k < i ==> is_digit(#[trigger] v@[k]),
        decreases hi - i,
    {
        if !('0' <= v[i] && v[i] <= '9') {
            assert(!is_digit(v@.subrange(lo as int, hi as int)[i - lo]));
            return false;
        }
        i = i + 1;
    }
    assert forall|k: int| 0 <= k < hi - lo implies is_digit(
        #[trigger] v@.subrange(lo as int, hi as int)[k],
    ) by {
        assert(v@.subrange(lo as int, hi as int)[k] == v@[lo + k]);
    }
    true
}


/// A decimal numeral denotes the number it was written for.
pub proof fn lemma_decimal_value(n: nat)
    ensures
        numeral_value(decimal(n)) == n,
        decimal(n).len() > 0,
        all_digits(decimal(n)),
    decreases n,
{
    if n < 10 {
        assert(decimal(n).drop_last() =~= Seq::<char>::empty());
        assert(digit_value(digit_char(n)) == n);
        assert(numeral_value(decimal(n)) == numeral_value(decimal(n).drop_last()) * 10
            + digit_value(decimal(n).last()));
    } else {
        lemma_decimal_value(n / 10);
        assert(digit_value(digit_char(n % 10)) == n % 10);
        assert((n / 10) * 10 + n % 10 == n);
        let d = decimal(n);
        assert(d.drop_last() =~= decimal(n / 10));
        assert(d.last() == digit_char(n % 10));
        assert(numeral_value(d) == numeral_value(d.drop_last()) * 10 + digit_value(d.last()));
        assert(numeral_value(d) == (n / 10) * 10 + n % 10);
        assert forall|i: int| 0 <= i < d.len() implies is_digit(#[trigger] d[i]) by {
            if i < d.len() - 1 {
                assert(d[i] == decimal(n / 10)[i]);
            }
        }
    }
}

/// Reading back the decimal numeral of a `u8` gives the `u8`.
pub proof fn lemma_parse_u8_decimal(n: u8)
    ensures
        parse_u8(decimal(n as nat)) == Some(n),
{
    lemma_decimal_value(n as nat);
}

} // verus!
