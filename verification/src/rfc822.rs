//! RFC 822 style control data, as dpkg writes it: one `Key: value` field
//! per line, and lines that begin with a space or a tab continue the field
//! before them.

use vstd::prelude::*;
use vstd::string::StringExecFns;

use crate::error::{Error, ErrorModel};
use crate::strmap::{
    append_value, has_key, insert_entry, keys_unique, lemma_append_keys, lemma_append_lookup,
    lemma_insert_lookup, lemma_insert_unique, lookup, StrMap,
};
use crate::text::{
    find_char, find_first, join, lemma_find_first, lemma_join_push, lemma_split_join_char,
    lemma_split_append_piece, lemma_trim_start_idempotent_prefix, split, split_chars, string_from_chars, sub_chars,
    to_chars, trim, trim_chars, views,
};

verus! {

/// Fields and their values, in the order in which fields first appeared.
pub type Rfc822Map = StrMap<String>;

/// The model of a field map: field names and values by their characters.
pub type Fields = Seq<(Seq<char>, Seq<char>)>;

/// What the parser holds after some lines: the fields, and the name of the
/// last field that a line named.
pub type ParseState = (Fields, Option<Seq<char>>);

/// A line that continues the field before it.
pub open spec fn is_folded(line: Seq<char>) -> bool {
    line.len() > 0 && (line[0] == ' ' || line[0] == '\t')
}

/// A line with a colon sets the field named by the text before the first
/// colon to the trimmed text after it.
pub open spec fn field_step(st: ParseState, line: Seq<char>) -> ParseState {
    match find_first(line, ':') {
        Some(p) => (
            insert_entry(st.0, line.take(p), trim(line.skip(p + 1))),
            Some(line.take(p)),
        ),
        None => st,
    }
}

/// One line: its field, if it names one; then, where the line begins with
/// white space, the whole line is added to the value of the last field,
/// and there being no such field is an error (`None`).
pub open spec fn line_step(st: ParseState, line: Seq<char>) -> Option<ParseState> {
    let st1 = field_step(st, line);
    if is_folded(line) {
        match st1.1 {
            Some(k) => Some((append_value(st1.0, k, line), st1.1)),
            None => None,
        }
    } else {
        Some(st1)
    }
}

/// The lines read in order.
pub open spec fn parse_lines(lines: Seq<Seq<char>>) -> Option<ParseState>
    decreases lines.len(),
{
    if lines.len() == 0 {
        Some((Seq::empty(), None))
    } else {
        match parse_lines(lines.drop_last()) {
            Some(st) => line_step(st, lines.last()),
            None => None,
        }
    }
}

/// The lines of a text: the pieces between its newlines.
pub open spec fn lines_of(s: Seq<char>) -> Seq<Seq<char>> {
    split(s, seq!['\n'])
}

/// The fields of a text, or `None` where it is refused.
pub open spec fn rfc822_spec(s: Seq<char>) -> Option<Fields> {
    match parse_lines(lines_of(s)) {
        Some(st) => Some(st.0),
        None => None,
    }
}

/// Some line that begins with white space comes before any line with a
/// colon (or is the first such line, but holds no colon).
pub open spec fn has_orphan_continuation(lines: Seq<Seq<char>>) -> bool {
    exists|j: int|
        0 <= j < lines.len() && is_folded(#[trigger] lines[j]) && forall|i: int|
            0 <= i <= j ==> find_first(#[trigger] lines[i], ':') is None
}

/// The line that displays one field.
pub open spec fn field_line(kv: (Seq<char>, Seq<char>)) -> Seq<char> {
    kv.0 + seq![':', ' '] + kv.1
}

/// The text that displays a field map: one `key: value` line per field.
pub open spec fn fmt_spec(e: Fields) -> Seq<char> {
    join(e.map_values(|kv: (Seq<char>, Seq<char>)| field_line(kv)), seq!['\n'])
}

spec fn opt_view(o: Option<String>) -> Option<Seq<char>> {
    match o {
        Some(s) => Some(s@),
        None => None,
    }
}

proof fn lemma_parse_lines_keys(lines: Seq<Seq<char>>)
    ensures
        parse_lines(lines) matches Some(st) ==> keys_unique(st.0) && (st.1 matches Some(k)
            ==> has_key(st.0, k)),
    decreases lines.len(),
{
    if lines.len() > 0 {
        lemma_parse_lines_keys(lines.drop_last());
        if let Some(st) = parse_lines(lines.drop_last()) {
            let line = lines.last();
            let st1 = field_step(st, line);
            if let Some(p) = find_first(line, ':') {
                lemma_insert_unique(st.0, line.take(p), trim(line.skip(p + 1)));
            }
            if is_folded(line) {
                if let Some(k) = st1.1 {
                    lemma_append_keys(st1.0, k, line);
                }
            }
        }
    }
}

/// Parses RFC 822 style control data (`parse_rfc822_buffer`).
///
/// The text is cut at each newline. A line with a colon sets the field named
/// by the text before its first colon to the text after it, trimmed; a line
/// that begins with a space or a tab is then added, whole, to the value of
/// the last field named, and is refused where no field was named before.
pub fn parse_rfc822_buffer(buffer: &str) -> (res: Result<Rfc822Map, Error>)
    ensures
        match res {
            Ok(m) => rfc822_spec(buffer@) == Some(m@),
            Err(e) => rfc822_spec(buffer@) is None && e@ == ErrorModel::InvalidFoldedValue,
        },
        res is Err <==> has_orphan_continuation(lines_of(buffer@)),
{
    let chars = to_chars(buffer);
    let nl: Vec<char> = vec!['\n'];
    let lines = split_chars(&chars, &nl);
    let ghost ls = views(lines@);
    proof {
        assert(nl@ == seq!['\n']);
        lemma_orphan_continuation(ls);
        assert(ls.take(0) =~= Seq::<Seq<char>>::empty());
    }
    let mut map: Rfc822Map = StrMap::new();
    let mut last_key: Option<String> = None;
    let mut i: usize = 0;
    while i < lines.len()
        invariant
            i <= lines.len(),
            ls == views(lines@),
            ls == lines_of(buffer@),
            parse_lines(ls.take(i as int)) == Some((map@, opt_view(last_key))),
        decreases lines.len() - i,
    {
        let line = &lines[i];
        let ghost st = (map@, opt_view(last_key));
        proof {
            assert(ls.take(i + 1).drop_last() == ls.take(i as int));
            assert(ls.take(i + 1).last() == line@);
            lemma_parse_lines_keys(ls.take(i as int));
        }
        match find_char(line, ':') {
            Some(p) => {
                let key_chars = sub_chars(line, 0, p);
                let rest = sub_chars(line, p + 1, line.len());
                let value_chars = trim_chars(&rest);
                let key = string_from_chars(key_chars.as_slice());
                let value = string_from_chars(value_chars.as_slice());
                proof {
                    assert(key@ == line@.take(p as int));
                    assert(rest@ == line@.skip(p + 1));
                }
                map.insert(key.clone(), value);
                last_key = Some(key);
            },
            None => {},
        }
        let ghost st1 = (map@, opt_view(last_key));
        proof {
            assert(st1 == field_step(st, line@));
            lemma_parse_lines_keys(ls.take(i as int));
            if let Some(p) = find_first(line@, ':') {
                lemma_insert_unique(st.0, line@.take(p), trim(line@.skip(p + 1)));
            }
        }
        if line.len() > 0 && (line[0] == ' ' || line[0] == '\t') {
            match &last_key {
                Some(k) => {
                    let whole = string_from_chars(line.as_slice());
                    map.push_str_to(k, whole.as_str());
                },
                None => {
                    proof {
                        assert(parse_lines(ls.take(i + 1)) is None);
                        lemma_parse_lines_none_prefix(ls, i + 1);
                        lemma_orphan_continuation(ls);
                    }
                    return Err(Error::InvalidFoldedValue);
                },
            }
        }
        i = i + 1;
    }
    proof {
        assert(ls.take(i as int) == ls);
    }
    Ok(map)
}

/// Displays a field map as RFC 822 style text (`fmt_rfc822`): one
/// `key: value` line per field, in the map's order, joined by newlines.
pub fn fmt_rfc822(rfc822_hmap: Rfc822Map) -> (s: String)
    ensures
        s@ == fmt_spec(rfc822_hmap@),
{
    let n = rfc822_hmap.len();
    let ghost lines = rfc822_hmap@.map_values(|kv: (Seq<char>, Seq<char>)| field_line(kv));
    let mut s = String::new();
    proof {
        reveal_strlit("\n");
        reveal_strlit(": ");
        assert(lines.take(0) =~= Seq::<Seq<char>>::empty());
    }
    let mut i: usize = 0;
    while i < n
        invariant
            i <= n == rfc822_hmap@.len(),
            lines == rfc822_hmap@.map_values(|kv: (Seq<char>, Seq<char>)| field_line(kv)),
            s@ == join(lines.take(i as int), seq!['\n']),
            "\n"@ == seq!['\n'],
            ": "@ == seq![':', ' '],
        decreases n - i,
    {
        let ghost before = s@;
        if i > 0 {
            s.append("\n");
        }
        let (k, v) = rfc822_hmap.entry(i);
        s.append(k.as_str());
        s.append(": ");
        s.append(v.as_str());
        proof {
            assert(lines.take(i + 1) == lines.take(i as int).push(lines[i as int]));
            assert(lines[i as int] == field_line(rfc822_hmap@[i as int]));
            if i > 0 {
                lemma_join_push(lines.take(i as int), seq!['\n'], lines[i as int]);
                assert(s@ == before + seq!['\n'] + lines[i as int]);
            } else {
                assert(lines.take(1) == seq![lines[0]]);
                assert(before == Seq::<char>::empty());
                assert(s@ == lines[0]);
            }
        }
        i = i + 1;
    }
    proof {
        assert(lines.take(n as int) == lines);
    }
    s
}

/// A field that displays as one line and reads back as itself: its name
/// holds no colon or newline and does not begin with white space that
/// continues a line, and its value holds no newline and is already trimmed.
pub open spec fn is_plain_field(kv: (Seq<char>, Seq<char>)) -> bool {
    &&& !kv.0.contains(':')
    &&& !kv.0.contains('\n')
    &&& !is_folded(kv.0)
    &&& !kv.1.contains('\n')
    &&& trim(kv.1) == kv.1
}

/// Reading back the display of a field map gives the map back, when every
/// field is plain: `parse_rfc822_buffer(fmt_rfc822(m)) == Ok(m)`.
pub proof fn lemma_parse_fmt_roundtrip(e: Fields)
    requires
        keys_unique(e),
        forall|i: int| 0 <= i < e.len() ==> is_plain_field(#[trigger] e[i]),
    ensures
        rfc822_spec(fmt_spec(e)) == Some(e),
{
    let lines = e.map_values(|kv: (Seq<char>, Seq<char>)| field_line(kv));
    if e.len() == 0 {
        assert(fmt_spec(e) == Seq::<char>::empty());
        let ls = lines_of(Seq::<char>::empty());
        assert(ls == seq![Seq::<char>::empty()]);
        assert(ls.drop_last() =~= Seq::<Seq<char>>::empty());
        assert(find_first(Seq::<char>::empty(), ':') is None);
        assert(e =~= Seq::<(Seq<char>, Seq<char>)>::empty());
        assert(parse_lines(ls.drop_last()) == Some((Seq::<(Seq<char>, Seq<char>)>::empty(), None::<Seq<char>>)));
        assert(parse_lines(ls) == Some((Seq::<(Seq<char>, Seq<char>)>::empty(), None::<Seq<char>>)));
    } else {
        assert forall|i: int| 0 <= i < lines.len() implies !(#[trigger] lines[i]).contains('\n') by {
            let kv = e[i];
            assert(lines[i] == kv.0 + seq![':', ' '] + kv.1);
            if lines[i].contains('\n') {
                let j = choose|j: int| 0 <= j < lines[i].len() && lines[i][j] == '\n';
                if j < kv.0.len() {
                    assert(kv.0[j] == '\n');
                } else if j >= kv.0.len() + 2 {
                    assert(kv.1[j - kv.0.len() - 2] == '\n');
                }
            }
        }
        lemma_split_join_char(lines, '\n');
        lemma_parse_plain_lines(e, e.len() as int);
        assert(lines.take(e.len() as int) == lines);
        assert(e.take(e.len() as int) == e);
        assert(fmt_spec(e) == join(lines, seq!['\n']));
        assert(lines_of(fmt_spec(e)) == lines);
        assert(parse_lines(lines) matches Some(st) && st.0 == e);
    }
}

/// Reading the first `n` lines of a display of plain fields gives the
/// first `n` fields.
proof fn lemma_parse_plain_lines(e: Fields, n: int)
    requires
        keys_unique(e),
        forall|i: int| 0 <= i < e.len() ==> is_plain_field(#[trigger] e[i]),
        0 <= n <= e.len(),
    ensures
        parse_lines(e.map_values(|kv: (Seq<char>, Seq<char>)| field_line(kv)).take(n)) == Some(
            (e.take(n), if n == 0 { None } else { Some(e[n - 1].0) }),
        ),
    decreases n,
{
    let lines = e.map_values(|kv: (Seq<char>, Seq<char>)| field_line(kv));
    if n == 0 {
        assert(lines.take(0) =~= Seq::<Seq<char>>::empty());
        assert(e.take(0) =~= Seq::<(Seq<char>, Seq<char>)>::empty());
    } else {
        lemma_parse_plain_lines(e, n - 1);
        assert(lines.take(n).drop_last() == lines.take(n - 1));
        let kv = e[n - 1];
        let line = lines.take(n).last();
        assert(line == field_line(kv));
        let k = kv.0;
        let v = kv.1;
        assert(is_plain_field(kv));
        // The first colon ends the name.
        lemma_find_first(line, ':');
        assert(line[k.len() as int] == ':');
        assert forall|j: int| 0 <= j < k.len() implies line[j] != ':' by {
            assert(line[j] == k[j]);
            if k[j] == ':' {
                assert(k.contains(':'));
            }
        }
        assert(find_first(line, ':') == Some(k.len() as int));
        assert(line.take(k.len() as int) == k);
        // The value reads back trimmed.
        let after = line.skip(k.len() as int + 1);
        assert(after == seq![' '] + v);
        lemma_trim_start_idempotent_prefix(seq![' '], v);
        assert(trim(after) == v);
        // The name is new.
        let prev = e.take(n - 1);
        assert(!has_key(prev, k)) by {
            if has_key(prev, k) {
                let j = choose|j: int| 0 <= j < prev.len() && (#[trigger] prev[j]).0 == k;
                assert(prev[j] == e[j]);
                assert(e[j].0 != e[n - 1].0);
            }
        }
        assert(insert_entry(prev, k, v) == e.take(n));
        // The line does not continue another.
        if k.len() > 0 {
            assert(line[0] == k[0]);
        } else {
            assert(line[0] == ':');
        }
        assert(!is_folded(line));
    }
}

/// A continuation line is added whole to the value of the last field named,
/// whatever that value holds: after a text whose lines name `k` last, a
/// newline and a line `l` that begins with a space or a tab and holds no
/// colon or newline make the value of `k` its old value followed by all of
/// `l`, and leave every other field as it was.
pub proof fn lemma_continuation_appended(s: Seq<char>, l: Seq<char>)
    requires
        parse_lines(lines_of(s)) matches Some(st) && st.1 is Some,
        is_folded(l),
        !l.contains(':'),
        !l.contains('\n'),
    ensures
        ({
            let st = parse_lines(lines_of(s)).unwrap();
            let k = st.1.unwrap();
            &&& rfc822_spec(s + seq!['\n'] + l) == Some(append_value(st.0, k, l))
            &&& forall|j: Seq<char>|
                #[trigger] lookup(rfc822_spec(s + seq!['\n'] + l).unwrap(), j) == if j == k {
                    Some(lookup(st.0, k).unwrap() + l)
                } else {
                    lookup(st.0, j)
                }
        }),
{
    let st = parse_lines(lines_of(s)).unwrap();
    let k = st.1.unwrap();
    lemma_split_append_piece(s, '\n', l);
    let lines = lines_of(s + seq!['\n'] + l);
    assert(lines == lines_of(s).push(l));
    assert(lines.drop_last() == lines_of(s));
    assert(lines.last() == l);
    lemma_find_first(l, ':');
    assert(find_first(l, ':') is None) by {
        if let Some(i) = find_first(l, ':') {
            assert(l.contains(':'));
        }
    }
    lemma_parse_lines_keys(lines_of(s));
    assert forall|j: Seq<char>|
        #[trigger] lookup(append_value(st.0, k, l), j) == if j == k {
            Some(lookup(st.0, k).unwrap() + l)
        } else {
            lookup(st.0, j)
        } by {
        lemma_append_lookup(st.0, k, l, j);
    }
}

/// A field line sets its field: after any text that reads, a newline and a
/// line `k: v`, whose name `k` holds no colon, no newline and does not
/// begin with a space or a tab, and whose value `v` holds no newline, make
/// `k` read as `v` trimmed and leave every other field as it was.
pub proof fn lemma_field_line_sets_value(s: Seq<char>, k: Seq<char>, v: Seq<char>)
    requires
        parse_lines(lines_of(s)) is Some,
        !k.contains(':'),
        !k.contains('\n'),
        !is_folded(k),
        !v.contains('\n'),
    ensures
        ({
            let before = parse_lines(lines_of(s)).unwrap().0;
            let after = rfc822_spec(s + seq!['\n'] + (k + seq![':'] + v));
            &&& after is Some
            &&& forall|j: Seq<char>|
                #[trigger] lookup(after.unwrap(), j) == if j == k {
                    Some(trim(v))
                } else {
                    lookup(before, j)
                }
        }),
{
    let st = parse_lines(lines_of(s)).unwrap();
    let line = k + seq![':'] + v;
    assert(!line.contains('\n')) by {
        if line.contains('\n') {
            let i = choose|i: int| 0 <= i < line.len() && line[i] == '\n';
            if i < k.len() {
                assert(k[i] == '\n');
            } else if i > k.len() {
                assert(v[i - k.len() - 1] == '\n');
            }
        }
    }
    lemma_split_append_piece(s, '\n', line);
    let lines = lines_of(s + seq!['\n'] + line);
    assert(lines.drop_last() == lines_of(s));
    assert(lines.last() == line);
    lemma_find_first(line, ':');
    assert forall|j: int| 0 <= j < k.len() implies line[j] != ':' by {
        assert(line[j] == k[j]);
        if k[j] == ':' {
            assert(k.contains(':'));
        }
    }
    assert(line[k.len() as int] == ':');
    assert(find_first(line, ':') == Some(k.len() as int));
    assert(line.take(k.len() as int) == k);
    assert(line.skip(k.len() as int + 1) == v);
    if k.len() > 0 {
        assert(line[0] == k[0]);
    }
    assert(!is_folded(line));
    lemma_parse_lines_keys(lines_of(s));
    assert forall|j: Seq<char>|
        #[trigger] lookup(insert_entry(st.0, k, trim(v)), j) == if j == k {
            Some(trim(v))
        } else {
            lookup(st.0, j)
        } by {
        lemma_insert_lookup(st.0, k, trim(v), j);
    }
}

/// A line that changes nothing: it holds no colon and does not begin with
/// a space or a tab.
pub open spec fn is_inert(line: Seq<char>) -> bool {
    find_first(line, ':') is None && !is_folded(line)
}

/// The lines without their inert ones.
pub open spec fn drop_inert(lines: Seq<Seq<char>>) -> Seq<Seq<char>>
    decreases lines.len(),
{
    if lines.len() == 0 {
        Seq::empty()
    } else if is_inert(lines.last()) {
        drop_inert(lines.drop_last())
    } else {
        drop_inert(lines.drop_last()).push(lines.last())
    }
}

/// `b` is `a` with some of its inert lines deleted.
pub open spec fn deletes_inert_lines(a: Seq<Seq<char>>, b: Seq<Seq<char>>) -> bool
    decreases a.len(),
{
    if a.len() == 0 {
        b.len() == 0
    } else if b.len() > 0 && b.last() == a.last() && deletes_inert_lines(
        a.drop_last(),
        b.drop_last(),
    ) {
        true
    } else {
        is_inert(a.last()) && deletes_inert_lines(a.drop_last(), b)
    }
}

/// Inert lines change nothing: reading the lines gives what reading them
/// without their inert ones gives.
pub proof fn lemma_parse_drop_inert(lines: Seq<Seq<char>>)
    ensures
        parse_lines(lines) == parse_lines(drop_inert(lines)),
    decreases lines.len(),
{
    if lines.len() > 0 {
        let init = lines.drop_last();
        let last = lines.last();
        lemma_parse_drop_inert(init);
        if !is_inert(last) {
            let d = drop_inert(init).push(last);
            assert(d.drop_last() == drop_inert(init));
            assert(d.last() == last);
        }
    }
}

proof fn lemma_deletion_drop_inert(a: Seq<Seq<char>>, b: Seq<Seq<char>>)
    requires
        deletes_inert_lines(a, b),
    ensures
        drop_inert(a) == drop_inert(b),
    decreases a.len(),
{
    if a.len() > 0 {
        if b.len() > 0 && b.last() == a.last() && deletes_inert_lines(a.drop_last(), b.drop_last()) {
            lemma_deletion_drop_inert(a.drop_last(), b.drop_last());
        } else {
            lemma_deletion_drop_inert(a.drop_last(), b);
        }
    }
}

/// Deleting lines that hold no colon and do not begin with a space or a
/// tab (such as empty lines) leaves the parse unchanged: both texts give
/// the same fields, or both are refused.
pub proof fn lemma_delete_inert_lines(buffer: Seq<char>, b2: Seq<char>)
    requires
        deletes_inert_lines(lines_of(buffer), lines_of(b2)),
    ensures
        rfc822_spec(b2) == rfc822_spec(buffer),
{
    lemma_deletion_drop_inert(lines_of(buffer), lines_of(b2));
    lemma_parse_drop_inert(lines_of(buffer));
    lemma_parse_drop_inert(lines_of(b2));
}

/// Once a prefix of the lines is refused, so are all the lines.
proof fn lemma_parse_lines_none_prefix(lines: Seq<Seq<char>>, n: int)
    requires
        0 <= n <= lines.len(),
        parse_lines(lines.take(n)) is None,
    ensures
        parse_lines(lines) is None,
    decreases lines.len() - n,
{
    if n < lines.len() {
        assert(lines.take(n + 1).drop_last() == lines.take(n));
        lemma_parse_lines_none_prefix(lines, n + 1);
    } else {
        assert(lines.take(n) == lines);
    }
}

/// Lines are refused exactly when a continuation line comes before any
/// field was named.
pub proof fn lemma_orphan_continuation(lines: Seq<Seq<char>>)
    ensures
        parse_lines(lines) is None <==> has_orphan_continuation(lines),
    decreases lines.len(),
{
    if lines.len() > 0 {
        let init = lines.drop_last();
        lemma_orphan_continuation(init);
        lemma_last_key_named(init);
        let line = lines.last();
        let j = lines.len() - 1;
        assert(line == lines[j]);
        if has_orphan_continuation(init) {
            let w = choose|w: int|
                0 <= w < init.len() && is_folded(#[trigger] init[w]) && forall|i: int|
                    0 <= i <= w ==> find_first(#[trigger] init[i], ':') is None;
            assert(lines[w] == init[w]);
            assert forall|i: int| 0 <= i <= w implies find_first(#[trigger] lines[i], ':') is None by {
                assert(lines[i] == init[i]);
            }
        } else {
            if has_orphan_continuation(lines) {
                let w = choose|w: int|
                    0 <= w < lines.len() && is_folded(#[trigger] lines[w]) && forall|i: int|
                        0 <= i <= w ==> find_first(#[trigger] lines[i], ':') is None;
                if w < j {
                    assert(init[w] == lines[w]);
                    assert forall|i: int| 0 <= i <= w implies find_first(#[trigger] init[i], ':')
                        is None by {
                        assert(lines[i] == init[i]);
                    }
                }
                assert(w == j);
                assert forall|i: int| 0 <= i < init.len() implies find_first(
                    #[trigger] init[i],
                    ':',
                ) is None by {
                    assert(lines[i] == init[i]);
                }
            } else {
                if parse_lines(lines) is None {
                    let st = parse_lines(init).unwrap();
                    assert(is_folded(line));
                    assert(find_first(line, ':') is None);
                    assert(st.1 is None);
                    assert forall|i: int| 0 <= i <= j implies find_first(#[trigger] lines[i], ':')
                        is None by {
                        if i < j {
                            assert(lines[i] == init[i]);
                        }
                    }
                }
            }
        }
    }
}

/// After some lines, a field has been named exactly when some line holds a
/// colon.
proof fn lemma_last_key_named(lines: Seq<Seq<char>>)
    ensures
        parse_lines(lines) matches Some(st) ==> (st.1 is None <==> forall|i: int|
            0 <= i < lines.len() ==> find_first(#[trigger] lines[i], ':') is None),
    decreases lines.len(),
{
    if lines.len() > 0 {
        let init = lines.drop_last();
        lemma_last_key_named(init);
        if let Some(st) = parse_lines(lines) {
            assert forall|i: int| 0 <= i < init.len() implies init[i] == lines[i] by {}
            assert(lines.last() == lines[lines.len() - 1]);
        }
    }
}

} // verus!
