//! Character-sequence specifications and helpers shared by the parsers:
//! splitting on a pattern, joining, trimming Unicode white space and
//! searching for a character.

use vstd::prelude::*;

verus! {

// ---------------------------------------------------------------------------
// Specifications
// ---------------------------------------------------------------------------

/// The Unicode `White_Space` property, which `char::is_whitespace` tests.
pub open spec fn is_ws(c: char) -> bool {
    let u = c as u32;
    ||| (0x09 <= u && u <= 0x0d)
    ||| u == 0x20
    ||| u == 0x85
    ||| u == 0xa0
    ||| u == 0x1680
    ||| (0x2000 <= u && u <= 0x200a)
    ||| u == 0x2028
    ||| u == 0x2029
    ||| u == 0x202f
    ||| u == 0x205f
    ||| u == 0x3000
}

/// `s` with its leading white space removed.
pub open spec fn trim_start(s: Seq<char>) -> Seq<char>
    decreases s.len(),
{
    if s.len() > 0 && is_ws(s[0]) {
        trim_start(s.drop_first())
    } else {
        s
    }
}

/// `s` with its trailing white space removed.
pub open spec fn trim_end(s: Seq<char>) -> Seq<char>
    decreases s.len(),
{
    if s.len() > 0 && is_ws(s.last()) {
        trim_end(s.drop_last())
    } else {
        s
    }
}

/// `str::trim`: leading and trailing white space removed.
pub open spec fn trim(s: Seq<char>) -> Seq<char> {
    trim_end(trim_start(s))
}

/// Puts `x` in front of the first piece of `parts`.
pub open spec fn prepend(x: Seq<char>, parts: Seq<Seq<char>>) -> Seq<Seq<char>> {
    parts.update(0, x + parts[0])
}

/// `str::split` with a non-empty string pattern: the pieces between the
/// leftmost non-overlapping occurrences of `pat`.
pub open spec fn split(s: Seq<char>, pat: Seq<char>) -> Seq<Seq<char>>
    decreases s.len(),
{
    if pat.len() == 0 || s.len() < pat.len() {
        seq![s]
    } else if s.take(pat.len() as int) == pat {
        seq![Seq::<char>::empty()] + split(s.skip(pat.len() as int), pat)
    } else {
        prepend(seq![s[0]], split(s.drop_first(), pat))
    }
}

/// The pieces joined with `sep` between each two of them.
pub open spec fn join(parts: Seq<Seq<char>>, sep: Seq<char>) -> Seq<char>
    decreases parts.len(),
{
    if parts.len() == 0 {
        Seq::empty()
    } else if parts.len() == 1 {
        parts[0]
    } else {
        parts[0] + sep + join(parts.drop_first(), sep)
    }
}

/// The index of the first occurrence of `c` in `s` (`str::find`).
pub open spec fn find_first(s: Seq<char>, c: char) -> Option<int>
    decreases s.len(),
{
    if s.len() == 0 {
        None
    } else if s[0] == c {
        Some(0)
    } else {
        match find_first(s.drop_first(), c) {
            Some(i) => Some(i + 1),
            None => None,
        }
    }
}

/// The index of the last occurrence of `c` in `s` (`str::rfind`).
pub open spec fn find_last(s: Seq<char>, c: char) -> Option<int>
    decreases s.len(),
{
    if s.len() == 0 {
        None
    } else if s.last() == c {
        Some(s.len() - 1)
    } else {
        find_last(s.drop_last(), c)
    }
}

/// Trimming removes white space only, and all of it at both ends: the text
/// is some white space, the trimmed text, then some white space, and the
/// trimmed text neither begins nor ends with white space.
pub proof fn lemma_trim_shape(s: Seq<char>)
    ensures
        exists|a: int, b: int|
            0 <= a <= b <= s.len() && trim(s) == s.subrange(a, b) && (forall|i: int|
                0 <= i < a ==> is_ws(#[trigger] s[i])) && (forall|i: int|
                b <= i < s.len() ==> is_ws(#[trigger] s[i])),
        trim(s).len() > 0 ==> !is_ws(trim(s)[0]) && !is_ws(trim(s).last()),
{
    let (a, t) = lemma_trim_start_shape(s);
    let b = lemma_trim_end_shape(t);
    assert(trim(s) == s.subrange(a, a + b)) by {
        assert(t.take(b) == s.subrange(a, a + b));
    }
    assert forall|i: int| a + b <= i < s.len() implies is_ws(#[trigger] s[i]) by {
        assert(s[i] == t[i - a]);
    }
    if trim(s).len() > 0 {
        assert(trim(s)[0] == t[0]);
    }
}

proof fn lemma_trim_start_shape(s: Seq<char>) -> (r: (int, Seq<char>))
    ensures
        0 <= r.0 <= s.len(),
        r.1 == s.skip(r.0),
        r.1 == trim_start(s),
        forall|i: int| 0 <= i < r.0 ==> is_ws(#[trigger] s[i]),
        r.1.len() > 0 ==> !is_ws(r.1[0]),
    decreases s.len(),
{
    if s.len() > 0 && is_ws(s[0]) {
        let (a, t) = lemma_trim_start_shape(s.drop_first());
        assert(s.drop_first().skip(a) == s.skip(a + 1));
        assert forall|i: int| 0 <= i < a + 1 implies is_ws(#[trigger] s[i]) by {
            if i > 0 {
                assert(s[i] == s.drop_first()[i - 1]);
            }
        }
        (a + 1, t)
    } else {
        assert(s.skip(0) == s);
        (0, s)
    }
}

proof fn lemma_trim_end_shape(s: Seq<char>) -> (b: int)
    ensures
        0 <= b <= s.len(),
        trim_end(s) == s.take(b),
        forall|i: int| b <= i < s.len() ==> is_ws(#[trigger] s[i]),
        b > 0 ==> !is_ws(s[b - 1]),
        s.len() > 0 && !is_ws(s[0]) ==> b > 0,
    decreases s.len(),
{
    if s.len() > 0 && is_ws(s.last()) {
        let b = lemma_trim_end_shape(s.drop_last());
        assert(s.drop_last().take(b) == s.take(b));
        assert(is_ws(s[s.len() - 1]));
        assert forall|i: int| b <= i < s.len() implies is_ws(#[trigger] s[i]) by {
            if i < s.len() - 1 {
                assert(s[i] == s.drop_last()[i]);
            }
        }
        if s.len() > 1 && !is_ws(s[0]) {
            assert(s.drop_last()[0] == s[0]);
        }
        b
    } else {
        assert(s.take(s.len() as int) == s);
        s.len() as int
    }
}

/// The views of a sequence of character vectors.
pub open spec fn views(v: Seq<Vec<char>>) -> Seq<Seq<char>> {
    v.map_values(|x: Vec<char>| x@)
}

// ---------------------------------------------------------------------------
// Lemmas
// ---------------------------------------------------------------------------

pub proof fn lemma_split_nonempty(s: Seq<char>, pat: Seq<char>)
    ensures
        split(s, pat).len() >= 1,
    decreases s.len(),
{
    if pat.len() == 0 || s.len() < pat.len() {
    } else if s.take(pat.len() as int) == pat {
        lemma_split_nonempty(s.skip(pat.len() as int), pat);
    } else {
        lemma_split_nonempty(s.drop_first(), pat);
    }
}

pub proof fn lemma_find_first(s: Seq<char>, c: char)
    ensures
        match find_first(s, c) {
            Some(i) => 0 <= i < s.len() && s[i] == c && forall|j: int| 0 <= j < i ==> s[j] != c,
            None => forall|j: int| 0 <= j < s.len() ==> s[j] != c,
        },
    decreases s.len(),
{
    if s.len() > 0 && s[0] != c {
        lemma_find_first(s.drop_first(), c);
        match find_first(s.drop_first(), c) {
            Some(i) => {
                assert forall|j: int| 0 <= j < i + 1 implies s[j] != c by {
                    if j > 0 {
                        assert(s[j] == s.drop_first()[j - 1]);
                    }
                }
            },
            None => {
                assert forall|j: int| 0 <= j < s.len() implies s[j] != c by {
                    if j > 0 {
                        assert(s[j] == s.drop_first()[j - 1]);
                    }
                }
            },
        }
    }
}

pub proof fn lemma_find_last(s: Seq<char>, c: char)
    ensures
        match find_last(s, c) {
            Some(i) => 0 <= i < s.len() && s[i] == c && forall|j: int| i < j < s.len() ==> s[j] != c,
            None => forall|j: int| 0 <= j < s.len() ==> s[j] != c,
        },
    decreases s.len(),
{
    if s.len() > 0 && s.last() != c {
        let t = s.drop_last();
        lemma_find_last(t, c);
        match find_last(t, c) {
            Some(i) => {
                assert forall|j: int| i < j < s.len() implies s[j] != c by {
                    if j < s.len() - 1 {
                        assert(s[j] == t[j]);
                    }
                }
            },
            None => {
                assert forall|j: int| 0 <= j < s.len() implies s[j] != c by {
                    if j < s.len() - 1 {
                        assert(s[j] == t[j]);
                    }
                }
            },
        }
    }
}

/// A piece that does not hold `c` followed by `c` is split off as one piece.
pub proof fn lemma_split_char_prefix(x: Seq<char>, c: char, y: Seq<char>)
    requires
        !x.contains(c),
    ensures
        split(x + seq![c] + y, seq![c]) == seq![x] + split(y, seq![c]),
    decreases x.len(),
{
    let pat = seq![c];
    let s = x + pat + y;
    if x.len() == 0 {
        assert(x =~= Seq::<char>::empty());
        assert(s =~= pat + y);
        assert(s.take(1) == pat);
        assert(s.skip(1) == y);
    } else {
        assert(s[0] == x[0]);
        assert(!(s.take(1) == pat)) by {
            assert(x.contains(x[0]));
            if s.take(1) == pat {
                assert(s.take(1)[0] == c);
            }
        }
        let x1 = x.drop_first();
        assert(!x1.contains(c)) by {
            if x1.contains(c) {
                let j = choose|j: int| 0 <= j < x1.len() && x1[j] == c;
                assert(x[j + 1] == c);
            }
        }
        assert(s.drop_first() == x1 + pat + y);
        lemma_split_char_prefix(x1, c, y);
        assert(seq![x[0]] + x1 == x);
        let q = split(y, pat);
        assert(prepend(seq![x[0]], seq![x1] + q) =~= seq![x] + q);
    }
}

/// A piece that does not hold `c` is not split.
pub proof fn lemma_split_char_whole(x: Seq<char>, c: char)
    requires
        !x.contains(c),
    ensures
        split(x, seq![c]) == seq![x],
    decreases x.len(),
{
    let pat = seq![c];
    if x.len() >= 1 {
        assert(!(x.take(1) == pat)) by {
            assert(x.contains(x[0]));
            if x.take(1) == pat {
                assert(x.take(1)[0] == c);
            }
        }
        let x1 = x.drop_first();
        assert(!x1.contains(c)) by {
            if x1.contains(c) {
                let j = choose|j: int| 0 <= j < x1.len() && x1[j] == c;
                assert(x[j + 1] == c);
            }
        }
        lemma_split_char_whole(x1, c);
        assert(seq![x[0]] + x1 == x);
        assert(prepend(seq![x[0]], seq![x1]) =~= seq![x]);
    }
}

/// A separator and a last piece that does not hold it, added at the end,
/// add that piece as the last one.
pub proof fn lemma_split_append_piece(x: Seq<char>, c: char, y: Seq<char>)
    requires
        !y.contains(c),
    ensures
        split(x + seq![c] + y, seq![c]) == split(x, seq![c]).push(y),
    decreases x.len(),
{
    let pat = seq![c];
    let s = x + pat + y;
    if x.len() == 0 {
        assert(x =~= Seq::<char>::empty());
        assert(s =~= pat + y);
        assert(s.take(1) == pat);
        assert(s.skip(1) == y);
        lemma_split_char_whole(y, c);
        assert(split(x, pat) == seq![x]);
        assert(seq![Seq::<char>::empty()] + seq![y] =~= seq![x].push(y));
    } else {
        assert(s.drop_first() == x.drop_first() + pat + y);
        lemma_split_append_piece(x.drop_first(), c, y);
        lemma_split_nonempty(x.drop_first(), pat);
        let q = split(x.drop_first(), pat);
        assert(s.take(1) == x.take(1));
        if x[0] == c {
            assert(x.take(1) == pat);
            assert(s.skip(1) == x.drop_first() + pat + y);
            assert(x.skip(1) == x.drop_first());
            assert(seq![Seq::<char>::empty()] + q.push(y) =~= (seq![Seq::<char>::empty()]
                + q).push(y));
        } else {
            assert(!(x.take(1) == pat)) by {
                if x.take(1) == pat {
                    assert(x.take(1)[0] == c);
                }
            }
            assert(prepend(seq![x[0]], q.push(y)) =~= prepend(seq![x[0]], q).push(y));
        }
    }
}

/// Splitting on a character undoes joining with it, when no piece holds it.
pub proof fn lemma_split_join_char(parts: Seq<Seq<char>>, c: char)
    requires
        parts.len() >= 1,
        forall|i: int| 0 <= i < parts.len() ==> !(#[trigger] parts[i]).contains(c),
    ensures
        split(join(parts, seq![c]), seq![c]) == parts,
    decreases parts.len(),
{
    if parts.len() == 1 {
        lemma_split_char_whole(parts[0], c);
    } else {
        let rest = parts.drop_first();
        assert forall|i: int| 0 <= i < rest.len() implies !(#[trigger] rest[i]).contains(c) by {
            assert(rest[i] == parts[i + 1]);
        }
        lemma_split_join_char(rest, c);
        assert(!parts[0].contains(c));
        lemma_split_char_prefix(parts[0], c, join(rest, seq![c]));
        assert(seq![parts[0]] + rest == parts);
    }
}

proof fn lemma_join_prepend(x: Seq<char>, parts: Seq<Seq<char>>, sep: Seq<char>)
    requires
        parts.len() >= 1,
    ensures
        join(prepend(x, parts), sep) == x + join(parts, sep),
{
    let q = prepend(x, parts);
    if parts.len() == 1 {
        assert(q.len() == 1);
    } else {
        assert(q.drop_first() == parts.drop_first());
        assert((x + parts[0]) + sep + join(parts.drop_first(), sep) == x + (parts[0] + sep + join(
            parts.drop_first(),
            sep,
        )));
    }
}

/// Cutting a text at a pattern loses nothing: joining the pieces with the
/// pattern gives the text back.
pub proof fn lemma_join_split(s: Seq<char>, pat: Seq<char>)
    ensures
        join(split(s, pat), pat) == s,
    decreases s.len(),
{
    if pat.len() == 0 || s.len() < pat.len() {
    } else if s.take(pat.len() as int) == pat {
        let rest = s.skip(pat.len() as int);
        lemma_join_split(rest, pat);
        lemma_split_nonempty(rest, pat);
        let p = seq![Seq::<char>::empty()] + split(rest, pat);
        assert(p.drop_first() == split(rest, pat));
        assert(Seq::<char>::empty() + pat + rest == s) by {
            assert(s == s.take(pat.len() as int) + rest);
        }
    } else {
        lemma_join_split(s.drop_first(), pat);
        lemma_split_nonempty(s.drop_first(), pat);
        lemma_join_prepend(seq![s[0]], split(s.drop_first(), pat), pat);
        assert(seq![s[0]] + s.drop_first() == s);
    }
}

/// Joining one more piece adds the separator and the piece at the end.
pub proof fn lemma_join_push(parts: Seq<Seq<char>>, sep: Seq<char>, x: Seq<char>)
    requires
        parts.len() >= 1,
    ensures
        join(parts.push(x), sep) == join(parts, sep) + sep + x,
    decreases parts.len(),
{
    let p = parts.push(x);
    if parts.len() == 1 {
        assert(p.drop_first() == seq![x]);
        assert(join(seq![x], sep) == x);
    } else {
        assert(p.drop_first() == parts.drop_first().push(x));
        lemma_join_push(parts.drop_first(), sep, x);
        assert(parts[0] + sep + (join(parts.drop_first(), sep) + sep + x) == (parts[0] + sep
            + join(parts.drop_first(), sep)) + sep + x);
    }
}

pub proof fn lemma_trim_start_idempotent_prefix(w: Seq<char>, s: Seq<char>)
    requires
        forall|i: int| 0 <= i < w.len() ==> is_ws(#[trigger] w[i]),
    ensures
        trim_start(w + s) == trim_start(s),
    decreases w.len(),
{
    if w.len() > 0 {
        assert((w + s)[0] == w[0]);
        assert((w + s).drop_first() == w.drop_first() + s);
        lemma_trim_start_idempotent_prefix(w.drop_first(), s);
    }
}

// ---------------------------------------------------------------------------
// Executable helpers
// ---------------------------------------------------------------------------

/// Copies the characters of a string slice into a vector.
pub fn to_chars(s: &str) -> (v: Vec<char>)
    ensures
        v@ == s@,
{
    let mut v: Vec<char> = Vec::new();
    for c in it: s.chars()
        invariant
            v@ == it.seq().take(it.index() as int),
            it.seq() == s@,
    {
        v.push(c);
    }
    v
}

/// Builds an owned string from a slice of characters
/// (`FromIterator<&char>` for `String`).
#[verifier::external_body]
pub(crate) fn string_from_chars(cs: &[char]) -> (s: String)
    ensures
        s@ == cs@,
{
    String::from_iter(cs.iter())
}

/// The characters of `v` from index `a` up to `b`.
pub fn sub_chars(v: &Vec<char>, a: usize, b: usize) -> (r: Vec<char>)
    requires
        a <= b <= v.len(),
    ensures
        r@ == v@.subrange(a as int, b as int),
{
    let mut r: Vec<char> = Vec::new();
    let mut i = a;
    while i < b
        invariant
            a <= i <= b <= v.len(),
            r@ == v@.subrange(a as int, i as int),
        decreases b - i,
    {
        r.push(v[i]);
        i = i + 1;
    }
    r
}

/// Whether `pat` occurs in `s` at index `i`.
pub fn matches_at(s: &Vec<char>, i: usize, pat: &Vec<char>) -> (b: bool)
    requires
        i + pat.len() <= s.len(),
    ensures
        b == (s@.subrange(i as int, i + pat.len()) == pat@),
{
    let mut j: usize = 0;
    while j < pat.len()
        invariant
            j <= pat.len(),
            i + pat.len() <= s.len(),
            forall|k: int| 0 <= k < j ==> s@[i + k] == pat@[k],
        decreases pat.len() - j,
    {
        if s[i + j] != pat[j] {
            assert(s@.subrange(i as int, i + pat.len())[j as int] != pat@[j as int]);
            return false;
        }
        j = j + 1;
    }
    assert(s@.subrange(i as int, i + pat.len()) =~= pat@);
    true
}

proof fn lemma_prepend_prepend(x: Seq<char>, y: Seq<char>, parts: Seq<Seq<char>>)
    requires
        parts.len() >= 1,
    ensures
        prepend(x, prepend(y, parts)) == prepend(x + y, parts),
{
    assert(x + (y + parts[0]) == (x + y) + parts[0]);
}

/// Splits `s` at each leftmost non-overlapping occurrence of `pat`
/// (`str::split` with a string pattern).
pub fn split_chars(s: &Vec<char>, pat: &Vec<char>) -> (parts: Vec<Vec<char>>)
    requires
        pat.len() > 0,
    ensures
        views(parts@) == split(s@, pat@),
{
    let n = s.len();
    let m = pat.len();
    let mut parts: Vec<Vec<char>> = Vec::new();
    let mut start: usize = 0;
    let mut i: usize = 0;
    proof {
        assert(s@.skip(0) == s@);
        lemma_split_nonempty(s@, pat@);
        assert(prepend(Seq::<char>::empty(), split(s@, pat@)) == split(s@, pat@)) by {
            assert(Seq::<char>::empty() + split(s@, pat@)[0] == split(s@, pat@)[0]);
        }
    }
    while m <= n - i
        invariant
            n == s.len(),
            m == pat.len(),
            m > 0,
            start <= i <= n,
            split(s@, pat@) == views(parts@) + prepend(
                s@.subrange(start as int, i as int),
                split(s@.skip(i as int), pat@),
            ),
        decreases n - i,
    {
        let ghost rest = s@.skip(i as int);
        proof {
            assert(rest.take(m as int) == s@.subrange(i as int, i + m));
        }
        if matches_at(s, i, pat) {
            let piece = sub_chars(s, start, i);
            proof {
                assert(rest.skip(m as int) == s@.skip(i + m));
                assert(split(rest, pat@) == seq![Seq::<char>::empty()] + split(
                    s@.skip(i + m),
                    pat@,
                ));
                lemma_split_nonempty(s@.skip(i + m), pat@);
                let q = split(s@.skip(i + m), pat@);
                let x = s@.subrange(start as int, i as int);
                assert(prepend(x, seq![Seq::<char>::empty()] + q) == seq![x] + q) by {
                    assert(x + Seq::<char>::empty() == x);
                }
                assert(prepend(Seq::<char>::empty(), q) == q) by {
                    assert(Seq::<char>::empty() + q[0] == q[0]);
                }
            }
            let ghost old_parts = parts@;
            parts.push(piece);
            proof {
                assert(views(parts@) == views(old_parts) + seq![s@.subrange(start as int, i as int)]);
            }
            i = i + m;
            start = i;
            proof {
                assert(s@.subrange(start as int, i as int) == Seq::<char>::empty());
            }
        } else {
            proof {
                assert(rest.drop_first() == s@.skip(i + 1));
                assert(rest[0] == s@[i as int]);
                lemma_split_nonempty(s@.skip(i + 1), pat@);
                lemma_prepend_prepend(
                    s@.subrange(start as int, i as int),
                    seq![s@[i as int]],
                    split(s@.skip(i + 1), pat@),
                );
                assert(s@.subrange(start as int, i as int) + seq![s@[i as int]] == s@.subrange(
                    start as int,
                    i + 1,
                ));
            }
            i = i + 1;
        }
    }
    let last = sub_chars(s, start, n);
    proof {
        let rest = s@.skip(i as int);
        assert(split(rest, pat@) == seq![rest]);
        assert(s@.subrange(start as int, i as int) + rest == s@.subrange(start as int, n as int));
    }
    let ghost old_parts = parts@;
    parts.push(last);
    proof {
        assert(views(parts@) == views(old_parts) + seq![s@.subrange(start as int, n as int)]);
    }
    parts
}

/// Whether `c` is white space (`char::is_whitespace`).
pub fn is_ws_char(c: char) -> (b: bool)
    ensures
        b == is_ws(c),
{
    let u = c as u32;
    (0x09 <= u && u <= 0x0d) || u == 0x20 || u == 0x85 || u == 0xa0 || u == 0x1680 || (0x2000
        <= u && u <= 0x200a) || u == 0x2028 || u == 0x2029 || u == 0x202f || u == 0x205f || u
        == 0x3000
}

proof fn lemma_trim_start_skip(s: Seq<char>, i: int)
    requires
        0 <= i <= s.len(),
        forall|j: int| 0 <= j < i ==> is_ws(#[trigger] s[j]),
    ensures
        trim_start(s) == trim_start(s.skip(i)),
    decreases i,
{
    if i > 0 {
        assert(is_ws(s[0]));
        assert(s.drop_first().skip(i - 1) == s.skip(i));
        assert forall|j: int| 0 <= j < i - 1 implies is_ws(#[trigger] s.drop_first()[j]) by {
            assert(s.drop_first()[j] == s[j + 1]);
        }
        lemma_trim_start_skip(s.drop_first(), i - 1);
    } else {
        assert(s.skip(0) =~= s);
    }
}

proof fn lemma_trim_end_take(s: Seq<char>, i: int)
    requires
        0 <= i <= s.len(),
        forall|j: int| i <= j < s.len() ==> is_ws(#[trigger] s[j]),
    ensures
        trim_end(s) == trim_end(s.take(i)),
    decreases s.len() - i,
{
    if i < s.len() {
        assert(is_ws(s[s.len() - 1]));
        assert(s.drop_last().take(i) == s.take(i));
        lemma_trim_end_take(s.drop_last(), i);
    } else {
        assert(s.take(i) =~= s);
    }
}

/// `s` with leading and trailing white space removed (`str::trim`).
pub fn trim_chars(s: &Vec<char>) -> (r: Vec<char>)
    ensures
        r@ == trim(s@),
{
    let n = s.len();
    let mut a: usize = 0;
    while a < n && is_ws_char(s[a])
        invariant
            a <= n == s.len(),
            forall|j: int| 0 <= j < a ==> is_ws(#[trigger] s@[j]),
        decreases n - a,
    {
        a = a + 1;
    }
    let mut b: usize = n;
    while b > a && is_ws_char(s[b - 1])
        invariant
            a <= b <= n == s.len(),
            forall|j: int| b <= j < n ==> is_ws(#[trigger] s@[j]),
        decreases b,
    {
        b = b - 1;
    }
    proof {
        lemma_trim_start_skip(s@, a as int);
        let t = s@.skip(a as int);
        if a < n {
            assert(!is_ws(t[0]));
        }
        assert(trim_start(t) == t);
        assert forall|j: int| b - a <= j < t.len() implies is_ws(#[trigger] t[j]) by {
            assert(t[j] == s@[a + j]);
        }
        lemma_trim_end_take(t, b - a);
        let u = t.take(b - a);
        if b > a {
            assert(u.last() == s@[b - 1]);
        }
        assert(trim_end(u) == u);
        assert(u == s@.subrange(a as int, b as int));
    }
    sub_chars(s, a, b)
}

/// The index of the first `c` in `s` (`str::find` with a character).
pub fn find_char(s: &Vec<char>, c: char) -> (r: Option<usize>)
    ensures
        r matches Some(i) ==> find_first(s@, c) == Some(i as int) && i < s.len() && s@[i as int]
            == c,
        r is None ==> find_first(s@, c) is None,
{
    let mut i: usize = 0;
    while i < s.len()
        invariant
            i <= s.len(),
            forall|j: int| 0 <= j < i ==> s@[j] != c,
        decreases s.len() - i,
    {
        if s[i] == c {
            proof {
                lemma_find_first(s@, c);
            }
            return Some(i);
        }
        i = i + 1;
    }
    proof {
        lemma_find_first(s@, c);
    }
    None
}

/// The index of the last `c` in `s` (`str::rfind` with a character).
pub fn rfind_char(s: &Vec<char>, c: char) -> (r: Option<usize>)
    ensures
        r matches Some(i) ==> find_last(s@, c) == Some(i as int) && i < s.len() && s@[i as int]
            == c,
        r is None ==> find_last(s@, c) is None,
{
    let mut i: usize = s.len();
    while i > 0
        invariant
            i <= s.len(),
            forall|j: int| i <= j < s.len() ==> s@[j] != c,
        decreases i,
    {
        if s[i - 1] == c {
            proof {
                lemma_find_last(s@, c);
            }
            return Some(i - 1);
        }
        i = i - 1;
    }
    proof {
        lemma_find_last(s@, c);
    }
    None
}

/// Whether `s` begins with `pre` (`str::starts_with`).
pub fn starts_with_chars(s: &Vec<char>, pre: &Vec<char>) -> (b: bool)
    ensures
        b == pre@.is_prefix_of(s@),
{
    if pre.len() > s.len() {
        return false;
    }
    let b = matches_at(s, 0, pre);
    proof {
        if b {
            assert(pre@ =~= s@.subrange(0, pre@.len() as int));
        }
    }
    b
}

/// Whether `a` and `b` hold the same characters.
pub fn chars_equal(a: &Vec<char>, b: &Vec<char>) -> (r: bool)
    ensures
        r == (a@ == b@),
{
    if a.len() != b.len() {
        return false;
    }
    let r = matches_at(a, 0, b);
    proof {
        assert(a@.subrange(0, b@.len() as int) =~= a@);
    }
    r
}

} // verus!
