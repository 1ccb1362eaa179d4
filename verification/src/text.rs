//! Text primitives: splitting on a separator, trimming white space and
//! comparing without regard to ASCII case.
//!
//! Every string is modelled by its sequence of characters.

use std::borrow::Cow;
use vstd::prelude::*;

verus! {

/// Position of the first `c` in `s`, or `s.len()` where `s` holds none.
pub open spec fn first_index_of(s: Seq<char>, c: char) -> int
    decreases s.len(),
{
    if s.len() == 0 || s[0] == c {
        0
    } else {
        1 + first_index_of(s.drop_first(), c)
    }
}

/// The pieces of `s` between the occurrences of `sep`. There is one piece more
/// than there are separators, so a piece may be empty.
pub open spec fn split_on(s: Seq<char>, sep: char) -> Seq<Seq<char>>
    decreases s.len(),
{
    let i = first_index_of(s, sep);
    if 0 <= i < s.len() {
        seq![s.take(i)] + split_on(s.skip(i + 1), sep)
    } else {
        seq![s]
    }
}

/// `first_index_of` lies within `s`, passes over no `c`, and stops on one.
pub proof fn lemma_first_index_of(s: Seq<char>, c: char)
    ensures
        0 <= first_index_of(s, c) <= s.len(),
        forall|j: int| 0 <= j < first_index_of(s, c) ==> s[j] != c,
        first_index_of(s, c) < s.len() ==> s[first_index_of(s, c)] == c,
    decreases s.len(),
{
    if s.len() == 0 || s[0] == c {
    } else {
        let rest = s.drop_first();
        lemma_first_index_of(rest, c);
        assert forall|j: int| 0 <= j < first_index_of(s, c) implies s[j] != c by {
            if j > 0 {
                assert(s[j] == rest[j - 1]);
            }
        }
        let k = first_index_of(rest, c);
        assert(k < rest.len() ==> s[k + 1] == rest[k]);
    }
}

/// A position that passes over no `c` and stops on one, or at the end, is the
/// first index of `c`.
pub proof fn lemma_first_index_is(s: Seq<char>, c: char, k: int)
    requires
        0 <= k <= s.len(),
        forall|j: int| 0 <= j < k ==> s[j] != c,
        k < s.len() ==> s[k] == c,
    ensures
        first_index_of(s, c) == k,
{
    lemma_first_index_of(s, c);
    let f = first_index_of(s, c);
    if f < k {
        assert(s[f] == c);
    } else if k < f {
        assert(s[k] == c);
    }
}

/// The pieces put together again, with `sep` between each two.
pub open spec fn joined(pieces: Seq<Seq<char>>, sep: char) -> Seq<char>
    decreases pieces.len(),
{
    if pieces.len() == 0 {
        Seq::empty()
    } else if pieces.len() == 1 {
        pieces[0]
    } else {
        pieces[0] + seq![sep] + joined(pieces.drop_first(), sep)
    }
}

/// Splitting loses nothing and leaves no separator behind: there is at least
/// one piece, no piece holds `sep`, and the pieces joined by `sep` are `s`.
pub proof fn lemma_split_on(s: Seq<char>, sep: char)
    ensures
        split_on(s, sep).len() >= 1,
        joined(split_on(s, sep), sep) == s,
        forall|i: int, j: int|
            0 <= i < split_on(s, sep).len() && 0 <= j < split_on(s, sep)[i].len() ==> split_on(
                s,
                sep,
            )[i][j] != sep,
    decreases s.len(),
{
    lemma_first_index_of(s, sep);
    let k = first_index_of(s, sep);
    let pieces = split_on(s, sep);
    if k < s.len() {
        let rest = split_on(s.skip(k + 1), sep);
        lemma_split_on(s.skip(k + 1), sep);
        assert(pieces.drop_first() == rest);
        assert(s.take(k) + seq![sep] + s.skip(k + 1) == s);
        assert forall|i: int, j: int| 0 <= i < pieces.len() && 0 <= j < pieces[i].len() implies
            pieces[i][j] != sep by {
            if i > 0 {
                assert(pieces[i] == rest[i - 1]);
            }
        }
    }
}

/// Where `s` holds no `sep` from `start` up to `pos` and has one at `pos`,
/// splitting what follows `start` gives that stretch and then the pieces of
/// what follows `pos`.
proof fn lemma_split_step(s: Seq<char>, sep: char, start: int, pos: int)
    requires
        0 <= start <= pos < s.len(),
        forall|j: int| start <= j < pos ==> s[j] != sep,
        s[pos] == sep,
    ensures
        split_on(s.skip(start), sep) == seq![s.subrange(start, pos)] + split_on(
            s.skip(pos + 1),
            sep,
        ),
{
    let tail = s.skip(start);
    lemma_first_index_is(tail, sep, pos - start);
    assert(tail.take(pos - start) == s.subrange(start, pos));
    assert(tail.skip(pos - start + 1) == s.skip(pos + 1));
}

/// Where `s` holds no `sep` from `start` on, what follows `start` is one piece.
proof fn lemma_split_last(s: Seq<char>, sep: char, start: int)
    requires
        0 <= start <= s.len(),
        forall|j: int| start <= j < s.len() ==> s[j] != sep,
    ensures
        split_on(s.skip(start), sep) == seq![s.subrange(start, s.len() as int)],
{
    let tail = s.skip(start);
    lemma_first_index_is(tail, sep, tail.len() as int);
    assert(tail == s.subrange(start, s.len() as int));
}

/// Splits `s` on the space character. Nothing is trimmed, folded or dropped:
/// two spaces in a row, or one at either end, give an empty token.
pub fn tokenizer(s: &str) -> (tokens: Vec<Cow<'_, str>>)
    ensures
        tokens.deep_view() == split_on(s@, ' '),
{
    let n = s.unicode_len();
    let mut tokens: Vec<Cow<'_, str>> = Vec::new();
    let mut start: usize = 0;
    let mut pos: usize = 0;
    assert(s@.skip(0) == s@);
    for c in it: s.chars()
        invariant
            it.seq() == s@,
            n == s@.len(),
            pos == it.index(),
            start <= pos,
            forall|j: int| start <= j < pos ==> s@[j] != ' ',
            split_on(s@, ' ') == tokens.deep_view() + split_on(s@.skip(start as int), ' '),
    {
        if c == ' ' {
            let piece = s.substring_char(start, pos);
            proof {
                lemma_split_step(s@, ' ', start as int, pos as int);
            }
            tokens.push(Cow::Borrowed(piece));
            start = pos + 1;
        }
        pos += 1;
    }
    let piece = s.substring_char(start, n);
    proof {
        lemma_split_last(s@, ' ', start as int);
    }
    tokens.push(Cow::Borrowed(piece));
    tokens
}

/// The characters of `s`, in order.
pub fn chars_of(s: &str) -> (out: Vec<char>)
    ensures
        out@ == s@,
{
    let mut out: Vec<char> = Vec::new();
    for c in it: s.chars()
        invariant
            it.seq() == s@,
            out@ == s@.take(it.index() as int),
    {
        out.push(c);
    }
    out
}

/// Whether `a` and `b` hold the same characters.
pub fn same_text(a: &str, b: &str) -> (same: bool)
    ensures
        same == (a@ == b@),
{
    let x = chars_of(a);
    let y = chars_of(b);
    if x.len() != y.len() {
        return false;
    }
    let mut i: usize = 0;
    while i < x.len()
        invariant
            x@ == a@,
            y@ == b@,
            x@.len() == y@.len(),
            i <= x@.len(),
            forall|j: int| 0 <= j < i ==> x@[j] == y@[j],
        decreases x@.len() - i,
    {
        if x[i] != y[i] {
            return false;
        }
        i += 1;
    }
    assert(a@ =~= b@);
    true
}

/// White space as Unicode defines it: the characters with the property
/// `White_Space`.
pub open spec fn is_whitespace(c: char) -> bool {
    let u = c as u32;
    ||| 0x09 <= u <= 0x0D
    ||| u == 0x20
    ||| u == 0x85
    ||| u == 0xA0
    ||| u == 0x1680
    ||| 0x2000 <= u <= 0x200A
    ||| u == 0x2028
    ||| u == 0x2029
    ||| u == 0x202F
    ||| u == 0x205F
    ||| u == 0x3000
}

/// Tells whether `c` is white space.
pub fn is_whitespace_char(c: char) -> (white: bool)
    ensures
        white == is_whitespace(c),
{
    let u: u32 = c as u32;
    (0x09 <= u && u <= 0x0D) || u == 0x20 || u == 0x85 || u == 0xA0 || u == 0x1680 || (0x2000 <= u
        && u <= 0x200A) || u == 0x2028 || u == 0x2029 || u == 0x202F || u == 0x205F || u == 0x3000
}

/// `s` without the white space at its start.
pub open spec fn trim_start(s: Seq<char>) -> Seq<char>
    decreases s.len(),
{
    if s.len() > 0 && is_whitespace(s[0]) {
        trim_start(s.drop_first())
    } else {
        s
    }
}

/// `s` without the white space at its end.
pub open spec fn trim_end(s: Seq<char>) -> Seq<char>
    decreases s.len(),
{
    if s.len() > 0 && is_whitespace(s.last()) {
        trim_end(s.drop_last())
    } else {
        s
    }
}

/// `s` without the white space at either end.
pub open spec fn trimmed(s: Seq<char>) -> Seq<char> {
    trim_end(trim_start(s))
}

/// Trimming the start makes a text no longer.
proof fn lemma_trim_start_shortens(s: Seq<char>)
    ensures
        trim_start(s).len() <= s.len(),
    decreases s.len(),
{
    if s.len() > 0 {
        lemma_trim_start_shortens(s.drop_first());
    }
}

/// Trimming the end makes a text no longer.
proof fn lemma_trim_end_shortens(s: Seq<char>)
    ensures
        trim_end(s).len() <= s.len(),
    decreases s.len(),
{
    if s.len() > 0 {
        lemma_trim_end_shortens(s.drop_last());
    }
}

/// A text that is not all white space holds a character that is none.
proof fn lemma_trimmed_has_character(s: Seq<char>) -> (p: int)
    requires
        trimmed(s).len() > 0,
    ensures
        0 <= p < s.len(),
        !is_whitespace(s[p]),
    decreases s.len(),
{
    lemma_trim_end_shortens(trim_start(s));
    if is_whitespace(s[0]) {
        let rest = s.drop_first();
        let q = lemma_trimmed_has_character(rest);
        assert(rest[q] == s[q + 1]);
        q + 1
    } else {
        0
    }
}

/// A text with a character that is not `sep` has a piece that is not empty.
proof fn lemma_character_gives_piece(s: Seq<char>, sep: char, p: int) -> (t: int)
    requires
        0 <= p < s.len(),
        s[p] != sep,
    ensures
        0 <= t < split_on(s, sep).len(),
        split_on(s, sep)[t].len() > 0,
    decreases s.len(),
{
    lemma_first_index_of(s, sep);
    let k = first_index_of(s, sep);
    if k >= s.len() || p < k {
        0
    } else {
        let rest = s.skip(k + 1);
        assert(rest[p - k - 1] == s[p]);
        let t = lemma_character_gives_piece(rest, sep, p - k - 1);
        assert(split_on(s, sep)[t + 1] == split_on(rest, sep)[t]);
        t + 1
    }
}

/// A text that is not all white space has a token that is not empty.
pub proof fn lemma_blank_or_token(s: Seq<char>) -> (t: int)
    requires
        trimmed(s).len() > 0,
    ensures
        0 <= t < split_on(s, ' ').len(),
        split_on(s, ' ')[t].len() > 0,
{
    let p = lemma_trimmed_has_character(s);
    lemma_character_gives_piece(s, ' ', p)
}

/// The bounds of `trimmed(v)` within `v`.
pub fn trim_bounds(v: &Vec<char>) -> (bounds: (usize, usize))
    ensures
        bounds.0 <= bounds.1 <= v@.len(),
        v@.subrange(bounds.0 as int, bounds.1 as int) == trimmed(v@),
{
    let n = v.len();
    let mut lo: usize = 0;
    assert(v@.skip(0) == v@);
    while lo < n && is_whitespace_char(v[lo])
        invariant
            n == v@.len(),
            lo <= n,
            trim_start(v@) == trim_start(v@.skip(lo as int)),
        decreases n - lo,
    {
        assert(v@.skip(lo as int).drop_first() == v@.skip(lo + 1));
        lo += 1;
    }
    assert(trim_start(v@) == v@.skip(lo as int));
    let mut hi: usize = n;
    assert(v@.subrange(lo as int, n as int) == v@.skip(lo as int));
    while lo < hi && is_whitespace_char(v[hi - 1])
        invariant
            lo <= hi <= n,
            n == v@.len(),
            trimmed(v@) == trim_end(v@.subrange(lo as int, hi as int)),
        decreases hi - lo,
    {
        assert(v@.subrange(lo as int, hi as int).drop_last() == v@.subrange(
            lo as int,
            hi - 1,
        ));
        hi -= 1;
    }
    (lo, hi)
}

/// The code point of `c`, where a capital letter of ASCII counts as its small
/// letter.
pub open spec fn ascii_folded(c: char) -> u32 {
    let u = c as u32;
    if 0x41 <= u <= 0x5A {
        (u + 0x20) as u32
    } else {
        u
    }
}

/// Whether `a` and `b` are the same but for the case of ASCII letters.
pub open spec fn eq_ignore_ascii_case(a: Seq<char>, b: Seq<char>) -> bool {
    &&& a.len() == b.len()
    &&& forall|i: int| 0 <= i < a.len() ==> ascii_folded(a[i]) == ascii_folded(b[i])
}

/// The folded code point of `c`.
pub fn fold_ascii(c: char) -> (u: u32)
    ensures
        u == ascii_folded(c),
{
    let u: u32 = c as u32;
    if 0x41 <= u && u <= 0x5A {
        u + 0x20
    } else {
        u
    }
}

/// Whether `query`, without the white space at either end, is `id` but for the
/// case of ASCII letters.
pub fn eq_trimmed_ignore_case(query: &str, id: &str) -> (same: bool)
    ensures
        same == eq_ignore_ascii_case(trimmed(query@), id@),
{
    let q = chars_of(query);
    let d = chars_of(id);
    let (lo, hi) = trim_bounds(&q);
    if hi - lo != d.len() {
        return false;
    }
    let ghost t = trimmed(query@);
    let mut i: usize = 0;
    while i < d.len()
        invariant
            lo <= hi <= q@.len(),
            hi - lo == d@.len(),
            d@ == id@,
            t == trimmed(query@),
            t == q@.subrange(lo as int, hi as int),
            i <= d@.len(),
            forall|j: int| 0 <= j < i ==> ascii_folded(t[j]) == ascii_folded(d@[j]),
        decreases d@.len() - i,
    {
        if fold_ascii(q[lo + i]) != fold_ascii(d[i]) {
            assert(ascii_folded(t[i as int]) != ascii_folded(id@[i as int]));
            return false;
        }
        assert(t[i as int] == q@[lo + i]);
        i += 1;
    }
    true
}

/// What follows the first `c` in `s`, if `s` holds one.
pub open spec fn after_first(s: Seq<char>, c: char) -> Option<Seq<char>> {
    let i = first_index_of(s, c);
    if 0 <= i < s.len() {
        Some(s.skip(i + 1))
    } else {
        None
    }
}

/// The name that an attribute path ends in: what follows its second `.`.
/// A path with fewer than two separators has no name, nor has one with
/// nothing behind the second.
pub open spec fn attribute_name(path: Seq<char>) -> Option<Seq<char>> {
    match after_first(path, '.') {
        Some(rest) => match after_first(rest, '.') {
            Some(name) => if name.len() > 0 {
                Some(name)
            } else {
                None
            },
            None => None,
        },
        None => None,
    }
}

/// The name that the attribute path `path` ends in.
pub fn attribute_name_of(path: &str) -> (name: Option<String>)
    ensures
        match name {
            Some(n) => attribute_name(path@) == Some(n@),
            None => attribute_name(path@) is None,
        },
{
    let n = path.unicode_len();
    let mut dots: usize = 0;
    let mut first: usize = 0;
    let mut second: usize = 0;
    let mut pos: usize = 0;
    for c in it: path.chars()
        invariant
            it.seq() == path@,
            n == path@.len(),
            pos == it.index(),
            dots <= 2,
            dots == 0 ==> forall|j: int| 0 <= j < pos ==> path@[j] != '.',
            dots >= 1 ==> first < pos && path@[first as int] == '.' && forall|j: int|
                0 <= j < first ==> path@[j] != '.',
            dots == 1 ==> forall|j: int| first < j < pos ==> path@[j] != '.',
            dots == 2 ==> first < second < pos && path@[second as int] == '.' && forall|j: int|
                first < j < second ==> path@[j] != '.',
    {
        if c == '.' {
            if dots == 0 {
                first = pos;
                dots = 1;
            } else if dots == 1 {
                second = pos;
                dots = 2;
            }
        }
        pos += 1;
    }
    proof {
        let s = path@;
        if dots == 0 {
            lemma_first_index_is(s, '.', s.len() as int);
        } else {
            lemma_first_index_is(s, '.', first as int);
            let rest = s.skip(first + 1);
            if dots == 1 {
                lemma_first_index_is(rest, '.', rest.len() as int);
            } else {
                lemma_first_index_is(rest, '.', second - first - 1);
                assert(rest.skip(second - first) == s.subrange(second + 1, n as int));
            }
        }
    }
    if dots == 2 && second + 1 < n {
        Some(String::from_str(path.substring_char(second + 1, n)))
    } else {
        None
    }
}

} // verus!
