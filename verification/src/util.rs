//! File extensions, MD5 checksums written in hexadecimal, the `Conffiles`
//! field, the lines of a file list, and looking a key up or failing.

use vstd::prelude::*;
use vstd::string::{StrSliceExecFns, StringSliceAdditionalSpecFns};
use vstd::utf8::encode_utf8;

use crate::error::{outcome_matches, Error, ErrorModel, IntErrorKind};
use crate::number::{
    hex_digit, hex_digit_value, lemma_hex_digit_table, lower_hex_digits, upper_hex_digits,
};
use crate::strmap::{insert_entry, lookup, StrMap};
use crate::text::{
    find_last, lemma_split_nonempty, prepend, split, split_chars, string_from_chars, sub_chars, to_chars,
    trim, trim_chars, views,
};

verus! {

// ---------------------------------------------------------------------------
// Looking a key up or failing
// ---------------------------------------------------------------------------

/// Looks a key up and gives the error where it is missing.
pub trait OkOrMap<V> {
    /// The value of `k`, or `error` where `k` is not a key.
    fn get_or<E>(&self, k: &str, error: E) -> Result<&V, E>;
}

impl<V: View> OkOrMap<V> for StrMap<V> {
    fn get_or<E>(&self, k: &str, error: E) -> (r: Result<&V, E>)
        ensures
            match r {
                Ok(v) => lookup(self@, k@) == Some(v@),
                Err(e) => lookup(self@, k@) is None && e == error,
            },
    {
        match self.get(k) {
            Some(v) => Ok(v),
            None => Err(error),
        }
    }
}

// ---------------------------------------------------------------------------
// File extensions
// ---------------------------------------------------------------------------

/// The extension of a file name: from its last `.` to its end.
pub open spec fn file_ext_spec(s: Seq<char>) -> Option<Seq<char>> {
    match find_last(s, '.') {
        Some(i) => Some(s.skip(i)),
        None => None,
    }
}

/// The extension of a path, from its last `.` on (`get_file_ext`).
pub fn get_file_ext(fpath: &str) -> (r: Option<&str>)
    ensures
        match r {
            Some(ext) => file_ext_spec(fpath@) == Some(ext@),
            None => file_ext_spec(fpath@) is None,
        },
        r matches Some(ext) ==> ext@.len() >= 1 && ext@[0] == '.' && !ext@.drop_first().contains(
            '.',
        ) && fpath@.skip(fpath@.len() - ext@.len()) == ext@,
{
    let chars = to_chars(fpath);
    match crate::text::rfind_char(&chars, '.') {
        Some(mid) => {
            proof {
                crate::text::lemma_find_last(fpath@, '.');
                let ext = fpath@.skip(mid as int);
                assert(!ext.drop_first().contains('.')) by {
                    if ext.drop_first().contains('.') {
                        let j = choose|j: int|
                            0 <= j < ext.drop_first().len() && ext.drop_first()[j] == '.';
                        assert(fpath@[mid + 1 + j] == '.');
                    }
                }
            }
            Some(fpath.substring_char(mid, chars.len()))
        },
        None => None,
    }
}

// ---------------------------------------------------------------------------
// MD5 checksums
// ---------------------------------------------------------------------------

/// An MD5 checksum: 16 bytes.
#[derive(Debug, Clone, Copy, PartialEq, Eq)]
pub struct Md5Digest(pub [u8; 16]);

impl View for Md5Digest {
    type V = Seq<u8>;

    open spec fn view(&self) -> Seq<u8> {
        self.0@
    }
}

/// The bytes read into a checksum: byte `j` is the value of the hexadecimal
/// digit at byte `2 * j` of the text.
pub open spec fn md5_bytes(bytes: Seq<u8>) -> Seq<u8> {
    Seq::new(16, |j: int| hex_digit(bytes[2 * j]).unwrap())
}

/// Reading from the `k`-th checksum byte on: a byte at an even position
/// that is not ASCII cannot be sliced out and halts (`None`); one that is no
/// hexadecimal digit is an error.
pub open spec fn md5_scan(bytes: Seq<u8>, k: int) -> Option<Result<Seq<u8>, ErrorModel>>
    decreases 16 - k,
{
    if k >= 16 {
        Some(Ok(md5_bytes(bytes)))
    } else if bytes[2 * k] >= 0x80 {
        None
    } else {
        match hex_digit(bytes[2 * k]) {
            None => Some(Err(ErrorModel::ParseIntError(IntErrorKind::InvalidDigit))),
            Some(_) => md5_scan(bytes, k + 1),
        }
    }
}

/// The checksum written in a text of the given bytes, an error, or `None`
/// where reading it does not end.
pub open spec fn md5_hex_spec(bytes: Seq<u8>) -> Option<Result<Seq<u8>, ErrorModel>> {
    if bytes.len() != 32 {
        Some(Err(ErrorModel::MD5Error))
    } else {
        md5_scan(bytes, 0)
    }
}

proof fn lemma_md5_scan_digits(b: Seq<u8>, k: int)
    requires
        b.len() == 32,
        0 <= k <= 16,
        forall|j: int| 0 <= j < 16 ==> #[trigger] b[2 * j] < 0x80 && hex_digit(b[2 * j]) is Some,
    ensures
        md5_scan(b, k) == Some(Ok::<Seq<u8>, ErrorModel>(md5_bytes(b))),
    decreases 16 - k,
{
    if k < 16 {
        assert(b[2 * k] < 0x80);
        lemma_md5_scan_digits(b, k + 1);
    }
}

/// A text of 32 bytes whose byte `2 * j` is the hexadecimal digit, in
/// lower or upper case, of the value `d[j]` reads as the checksum `d`,
/// whatever its other bytes are.
pub proof fn lemma_md5_from_digits(b: Seq<u8>, d: Seq<u8>)
    requires
        b.len() == 32,
        d.len() == 16,
        forall|j: int|
            0 <= j < 16 ==> #[trigger] d[j] < 16 && (b[2 * j] == lower_hex_digits()[d[j] as int]
                || b[2 * j] == upper_hex_digits()[d[j] as int]),
    ensures
        md5_hex_spec(b) == Some(Ok::<Seq<u8>, ErrorModel>(d)),
{
    lemma_hex_digit_table(0);
    assert forall|j: int| 0 <= j < 16 implies #[trigger] b[2 * j] < 0x80 && hex_digit(b[2 * j])
        == Some(d[j]) by {
        assert(d[j] < 16);
        let v = d[j] as int;
        assert(hex_digit(lower_hex_digits()[v]) == Some(v as u8));
        assert(hex_digit(upper_hex_digits()[v]) == Some(v as u8));
        assert(lower_hex_digits()[v] < 0x80 && upper_hex_digits()[v] < 0x80);
    }
    lemma_md5_scan_digits(b, 0);
    assert(md5_bytes(b) =~= d);
}

/// Reads an MD5 checksum as [`hex_string_to_md5`] does, and gives `None`
/// where that function's input is excluded.
pub fn md5_hex_checked(hex: &str) -> (r: Option<Result<Md5Digest, Error>>)
    ensures
        outcome_matches(r, md5_hex_spec(hex.spec_bytes())),
{
    let bytes = hex.as_bytes();
    let ghost b = hex.spec_bytes();
    if bytes.len() != 32 {
        return Some(Err(Error::MD5Error));
    }
    let mut buffer: [u8; 16] = [0; 16];
    let mut k: usize = 0;
    while k < 16
        invariant
            k <= 16,
            bytes@ == b,
            b == hex.spec_bytes(),
            b.len() == 32,
            md5_hex_spec(b) == md5_scan(b, k as int),
            forall|j: int| 0 <= j < k ==> hex_digit(#[trigger] b[2 * j]) is Some,
            forall|j: int| 0 <= j < k ==> buffer@[j] == hex_digit(#[trigger] b[2 * j]).unwrap(),
        decreases 16 - k,
    {
        let byte = bytes[2 * k];
        proof {
            assert(byte == b[2 * k]);
        }
        if byte >= 0x80 {
            return None;
        }
        match hex_digit_value(byte) {
            None => {
                return Some(Err(Error::ParseIntError(IntErrorKind::InvalidDigit)));
            },
            Some(v) => {
                buffer[k] = v;
            },
        }
        k = k + 1;
    }
    proof {
        assert(buffer@ =~= md5_bytes(b));
    }
    Some(Ok(Md5Digest(buffer)))
}

/// Reads an MD5 checksum from a text of 32 bytes (`hex_string_to_md5`):
/// byte `j` of the checksum is the value of the single hexadecimal digit at
/// byte `2 * j` of the text.
pub fn hex_string_to_md5(hex: &str) -> (r: Result<Md5Digest, Error>)
    requires
        md5_hex_spec(hex.spec_bytes()) is Some,
    ensures
        outcome_matches(Some(r), md5_hex_spec(hex.spec_bytes())),
{
    match md5_hex_checked(hex) {
        Some(r) => r,
        None => {
            proof {
                assert(false);
            }
            Err(Error::MD5Error)
        },
    }
}

// ---------------------------------------------------------------------------
// The `Conffiles` field
// ---------------------------------------------------------------------------

/// Configuration files and their checksums.
pub type ConfFiles = StrMap<Md5Digest>;

/// The model of [`ConfFiles`].
pub type ConfModel = Seq<(Seq<char>, Seq<u8>)>;

/// The words read in pairs of path and checksum after the entries `acc`:
/// a last word without its checksum halts the reading (`None`).
pub open spec fn conf_pairs(words: Seq<Seq<char>>, acc: ConfModel) -> Option<
    Result<ConfModel, ErrorModel>,
>
    decreases words.len(),
{
    if words.len() == 0 {
        Some(Ok(acc))
    } else if words.len() == 1 {
        None
    } else {
        match md5_hex_spec(encode_utf8(words[1])) {
            None => None,
            Some(Err(e)) => Some(Err(e)),
            Some(Ok(d)) => conf_pairs(words.skip(2), insert_entry(acc, words[0], d)),
        }
    }
}

/// The words of a `Conffiles` value: the trimmed text cut at each space.
pub open spec fn conf_words(s: Seq<char>) -> Seq<Seq<char>> {
    split(trim(s), seq![' '])
}

/// The configuration files that a `Conffiles` value lists, an error, or
/// `None` where reading it does not end.
pub open spec fn config_files_spec(s: Seq<char>) -> Option<Result<ConfModel, ErrorModel>> {
    conf_pairs(conf_words(s), Seq::empty())
}

/// Reads a `Conffiles` value as [`parse_config_files`] does, and gives
/// `None` where that function's input is excluded.
pub fn config_files_checked(string: &str) -> (r: Option<Result<ConfFiles, Error>>)
    ensures
        outcome_matches(r, config_files_spec(string@)),
{
    let chars = to_chars(string);
    let trimmed = trim_chars(&chars);
    let space: Vec<char> = vec![' '];
    let words = split_chars(&trimmed, &space);
    let ghost ws = views(words@);
    proof {
        assert(space@ == seq![' ']);
        assert(ws.skip(0) == ws);
    }
    let mut conffiles: ConfFiles = StrMap::new();
    let mut i: usize = 0;
    while i < words.len()
        invariant
            i <= words.len(),
            ws == views(words@),
            ws == conf_words(string@),
            config_files_spec(string@) == conf_pairs(ws.skip(i as int), conffiles@),
        decreases words.len() - i,
    {
        let ghost rest = ws.skip(i as int);
        if i + 1 >= words.len() {
            proof {
                assert(rest.len() == 1);
            }
            return None;
        }
        let path = string_from_chars(words[i].as_slice());
        let hex = string_from_chars(words[i + 1].as_slice());
        proof {
            assert(rest[0] == ws[i as int]);
            assert(rest[1] == ws[i + 1]);
            assert(hex@ == words@[i + 1]@);
            assert(rest.skip(2) == ws.skip(i + 2));
        }
        match md5_hex_checked(hex.as_str()) {
            None => {
                return None;
            },
            Some(Err(e)) => {
                return Some(Err(e));
            },
            Some(Ok(digest)) => {
                conffiles.insert(path, digest);
            },
        }
        i = i + 2;
    }
    proof {
        assert(ws.skip(i as int).len() == 0);
    }
    Some(Ok(conffiles))
}

/// Reads the value of a `Conffiles` field (`parse_config_files`): the
/// trimmed text is cut at each space into pairs of a path and its checksum.
pub fn parse_config_files(string: &str) -> (r: Result<ConfFiles, Error>)
    requires
        config_files_spec(string@) is Some,
    ensures
        outcome_matches(Some(r), config_files_spec(string@)),
{
    match config_files_checked(string) {
        Some(r) => r,
        None => {
            proof {
                assert(false);
            }
            Err(Error::MD5Error)
        },
    }
}

// ---------------------------------------------------------------------------
// The lines of a file list
// ---------------------------------------------------------------------------

/// `str::lines`: the text cut at each newline, with no last empty line, and
/// a carriage return before a newline removed.
pub open spec fn lines_spec(s: Seq<char>) -> Seq<Seq<char>> {
    let p = split(s, seq!['\n']);
    let n = if p.last().len() == 0 {
        p.len() - 1
    } else {
        p.len() as int
    };
    Seq::new(
        n as nat,
        |i: int|
            if i < p.len() - 1 && p[i].len() > 0 && p[i].last() == '\r' {
                p[i].drop_last()
            } else {
                p[i]
            },
    )
}

/// The lines of a file list, as `str::lines` gives them: the paths that a
/// package installed, one per line.
pub fn list_file_lines(buffer: &str) -> (r: Vec<String>)
    ensures
        r@.len() == lines_spec(buffer@).len(),
        forall|i: int| 0 <= i < r@.len() ==> (#[trigger] r@[i])@ == lines_spec(buffer@)[i],
{
    let chars = to_chars(buffer);
    let nl: Vec<char> = vec!['\n'];
    let pieces = split_chars(&chars, &nl);
    let ghost p = views(pieces@);
    proof {
        assert(nl@ == seq!['\n']);
        lemma_split_nonempty(buffer@, seq!['\n']);
    }
    let np = pieces.len();
    let n = if pieces[np - 1].len() == 0 {
        np - 1
    } else {
        np
    };
    let mut r: Vec<String> = Vec::new();
    let mut i: usize = 0;
    while i < n
        invariant
            i <= n <= np == pieces.len(),
            np >= 1,
            p == views(pieces@),
            p == split(buffer@, seq!['\n']),
            n == lines_spec(buffer@).len(),
            r@.len() == i,
            forall|j: int| 0 <= j < i ==> (#[trigger] r@[j])@ == lines_spec(buffer@)[j],
        decreases n - i,
    {
        let piece = &pieces[i];
        let m = piece.len();
        let line = if i < np - 1 && m > 0 && piece[m - 1] == '\r' {
            sub_chars(piece, 0, m - 1)
        } else {
            sub_chars(piece, 0, m)
        };
        proof {
            assert(piece@.subrange(0, m as int) == piece@);
            assert(piece@.subrange(0, m - 1) == piece@.drop_last());
        }
        r.push(string_from_chars(line.as_slice()));
        i = i + 1;
    }
    r
}

proof fn lemma_split_push_sep(x: Seq<char>, c: char)
    ensures
        split(x + seq![c], seq![c]) == split(x, seq![c]).push(Seq::<char>::empty()),
    decreases x.len(),
{
    let pat = seq![c];
    let s = x + pat;
    if x.len() == 0 {
        assert(s == pat);
        assert(s.take(1) == pat);
        assert(s.skip(1) =~= Seq::<char>::empty());
        assert(x =~= Seq::<char>::empty());
    } else {
        assert(s.drop_first() == x.drop_first() + pat);
        lemma_split_push_sep(x.drop_first(), c);
        lemma_split_nonempty(x.drop_first(), pat);
        let q = split(x.drop_first(), pat);
        assert(s.take(1) == x.take(1));
        if x[0] == c {
            assert(x.take(1) == pat);
            assert(s.skip(1) == x.drop_first() + pat);
            assert(x.skip(1) == x.drop_first());
            assert(seq![Seq::<char>::empty()] + q.push(Seq::<char>::empty()) =~= (seq![
                Seq::<char>::empty(),
            ] + q).push(Seq::<char>::empty()));
        } else {
            assert(!(x.take(1) == pat)) by {
                if x.take(1) == pat {
                    assert(x.take(1)[0] == c);
                }
            }
            assert(prepend(seq![x[0]], q.push(Seq::<char>::empty())) =~= prepend(
                seq![x[0]],
                q,
            ).push(Seq::<char>::empty()));
        }
    }
}

proof fn lemma_split_last_piece(t: Seq<char>, c: char)
    requires
        t.len() > 0,
        t.last() != c,
    ensures
        split(t, seq![c]).last().len() > 0,
        split(t, seq![c]).last().last() == t.last(),
    decreases t.len(),
{
    let pat = seq![c];
    let rest = t.drop_first();
    lemma_split_nonempty(t, pat);
    if t.len() == 1 {
        assert(!(t.take(1) == pat)) by {
            if t.take(1) == pat {
                assert(t.take(1)[0] == c);
            }
        }
        assert(rest =~= Seq::<char>::empty());
        assert(split(rest, pat) == seq![rest]);
        assert(split(t, pat) == seq![seq![t[0]] + rest]);
    } else {
        assert(rest.last() == t.last());
        lemma_split_last_piece(rest, c);
        lemma_split_nonempty(rest, pat);
        if t.take(1) == pat {
            assert(t.skip(1) == rest);
        } else {
            let q = split(rest, pat);
            let r = prepend(seq![t[0]], q);
            if q.len() == 1 {
                assert(r.last() == seq![t[0]] + q[0]);
            } else {
                assert(r.last() == q.last());
            }
        }
    }
}

/// A final newline adds no line: a text that does not end with a newline
/// or a carriage return has the same lines with a newline after it (the
/// promise of `str::lines`).
pub proof fn lemma_lines_final_newline(t: Seq<char>)
    requires
        t.len() > 0,
        t.last() != '\n',
        t.last() != '\r',
    ensures
        lines_spec(t + seq!['\n']) == lines_spec(t),
{
    let p = split(t, seq!['\n']);
    lemma_split_push_sep(t, '\n');
    lemma_split_last_piece(t, '\n');
    lemma_split_nonempty(t, seq!['\n']);
    let q = split(t + seq!['\n'], seq!['\n']);
    assert(q == p.push(Seq::<char>::empty()));
    assert(q.last().len() == 0);
    let a = lines_spec(t + seq!['\n']);
    let b = lines_spec(t);
    assert(a.len() == p.len());
    assert(b.len() == p.len());
    assert forall|i: int| 0 <= i < a.len() implies a[i] == b[i] by {
        assert(q[i] == p[i]);
        if i == p.len() - 1 {
            assert(p[i] == p.last());
        }
    }
    assert(a =~= b);
}

} // verus!
