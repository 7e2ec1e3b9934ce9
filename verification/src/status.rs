//! Entries of the dpkg `status` file: what dpkg records of each package.

use vstd::prelude::*;

use crate::error::{outcome_matches, Error, ErrorModel};
use crate::number::{parse_usize, parse_usize_spec};
use crate::rfc822::{parse_rfc822_buffer, rfc822_spec, Fields, Rfc822Map};
use crate::strmap::lookup;
use crate::text::{split, split_chars, string_from_chars, to_chars, views};
use crate::util::{
    config_files_checked, config_files_spec, ConfFiles, ConfModel, OkOrMap,
};

verus! {

/// One package as the `status` file records it.
#[derive(Debug)]
pub struct StatusEntry {
    pub depends: Option<Vec<String>>,
    pub description: String,
    pub version: String,
    pub config_version: Option<String>,
    pub homepage: Option<String>,
    pub section: String,
    pub source: Option<String>,
    pub status: String,
    pub install_size: usize,
    pub package: String,
    pub provides: Option<String>,
    pub architecture: String,
    pub priority: String,
    pub maintainer: String,
    pub conffiles: Option<ConfFiles>,
}

/// What a [`StatusEntry`] holds, with texts taken by their characters.
pub struct StatusModel {
    pub depends: Option<Seq<Seq<char>>>,
    pub description: Seq<char>,
    pub version: Seq<char>,
    pub config_version: Option<Seq<char>>,
    pub homepage: Option<Seq<char>>,
    pub section: Seq<char>,
    pub source: Option<Seq<char>>,
    pub status: Seq<char>,
    pub install_size: nat,
    pub package: Seq<char>,
    pub provides: Option<Seq<char>>,
    pub architecture: Seq<char>,
    pub priority: Seq<char>,
    pub maintainer: Seq<char>,
    pub conffiles: Option<ConfModel>,
}

/// The characters of an optional text.
pub open spec fn opt_chars(o: Option<String>) -> Option<Seq<char>> {
    match o {
        Some(s) => Some(s@),
        None => None,
    }
}

/// The characters of each text.
pub open spec fn strings_view(v: Seq<String>) -> Seq<Seq<char>> {
    v.map_values(|s: String| s@)
}

impl View for StatusEntry {
    type V = StatusModel;

    open spec fn view(&self) -> StatusModel {
        StatusModel {
            depends: match self.depends {
                Some(d) => Some(strings_view(d@)),
                None => None,
            },
            description: self.description@,
            version: self.version@,
            config_version: opt_chars(self.config_version),
            homepage: opt_chars(self.homepage),
            section: self.section@,
            source: opt_chars(self.source),
            status: self.status@,
            install_size: self.install_size as nat,
            package: self.package@,
            provides: opt_chars(self.provides),
            architecture: self.architecture@,
            priority: self.priority@,
            maintainer: self.maintainer@,
            conffiles: match self.conffiles {
                Some(c) => Some(c@),
                None => None,
            },
        }
    }
}

/// The outcome of a missing field.
pub open spec fn missing(name: Seq<char>) -> Option<Result<StatusModel, ErrorModel>> {
    Some(Err(ErrorModel::MissingStatusEntryField(name)))
}

/// The entry that a field map describes, an error, or `None` where reading
/// it does not end. The required fields are looked for in the order
/// `Description`, `Version`, `Section`, `Status`, `Installed-Size` (which
/// must also read as a number), `Package`, `Architecture`, `Priority`,
/// `Maintainer`; `Conffiles` is read last.
pub open spec fn status_entry_spec(e: Fields) -> Option<Result<StatusModel, ErrorModel>> {
    if lookup(e, "Description"@) is None {
        missing("Description"@)
    } else if lookup(e, "Version"@) is None {
        missing("Version"@)
    } else if lookup(e, "Section"@) is None {
        missing("Section"@)
    } else if lookup(e, "Status"@) is None {
        missing("Status"@)
    } else if lookup(e, "Installed-Size"@) is None {
        missing("Installed-Size"@)
    } else if parse_usize_spec(lookup(e, "Installed-Size"@).unwrap()) is Err {
        Some(
            Err(
                ErrorModel::ParseIntError(
                    parse_usize_spec(lookup(e, "Installed-Size"@).unwrap())->Err_0,
                ),
            ),
        )
    } else if lookup(e, "Package"@) is None {
        missing("Package"@)
    } else if lookup(e, "Architecture"@) is None {
        missing("Architecture"@)
    } else if lookup(e, "Priority"@) is None {
        missing("Priority"@)
    } else if lookup(e, "Maintainer"@) is None {
        missing("Maintainer"@)
    } else {
        let model = |conffiles: Option<ConfModel>|
            StatusModel {
                depends: match lookup(e, "Depends"@) {
                    Some(d) => Some(split(d, ", "@)),
                    None => None,
                },
                description: lookup(e, "Description"@).unwrap(),
                version: lookup(e, "Version"@).unwrap(),
                config_version: lookup(e, "Config-Version"@),
                homepage: lookup(e, "Homepage"@),
                section: lookup(e, "Section"@).unwrap(),
                source: lookup(e, "Source"@),
                status: lookup(e, "Status"@).unwrap(),
                install_size: parse_usize_spec(lookup(e, "Installed-Size"@).unwrap())->Ok_0,
                package: lookup(e, "Package"@).unwrap(),
                provides: lookup(e, "Provides"@),
                architecture: lookup(e, "Architecture"@).unwrap(),
                priority: lookup(e, "Priority"@).unwrap(),
                maintainer: lookup(e, "Maintainer"@).unwrap(),
                conffiles: conffiles,
            };
        match lookup(e, "Conffiles"@) {
            None => Some(Ok(model(None))),
            Some(c) => match config_files_spec(c) {
                None => None,
                Some(Err(err)) => Some(Err(err)),
                Some(Ok(m)) => Some(Ok(model(Some(m)))),
            },
        }
    }
}

/// The value of a required field (`get_entry`), or the error that names it.
pub fn get_entry<'a>(hmap: &'a Rfc822Map, entry: &str) -> (r: Result<&'a String, Error>)
    ensures
        match r {
            Ok(v) => lookup(hmap@, entry@) == Some(v@),
            Err(e) => lookup(hmap@, entry@) is None && e@ == ErrorModel::MissingStatusEntryField(
                entry@,
            ),
        },
{
    hmap.get_or(entry, Error::MissingStatusEntryField(entry.to_owned()))
}

/// A copy of the value of an optional field (`get_owned_entry`).
pub fn get_owned_entry(hmap: &Rfc822Map, entry: &str) -> (r: Option<String>)
    ensures
        opt_chars(r) == lookup(hmap@, entry@),
{
    match hmap.get(entry) {
        Some(value) => Some(value.clone()),
        None => None,
    }
}

/// Owned texts of the given characters.
fn strings_of(pieces: &Vec<Vec<char>>) -> (r: Vec<String>)
    ensures
        strings_view(r@) == views(pieces@),
{
    let mut r: Vec<String> = Vec::new();
    let mut i: usize = 0;
    while i < pieces.len()
        invariant
            i <= pieces.len(),
            strings_view(r@) == views(pieces@).take(i as int),
        decreases pieces.len() - i,
    {
        let ghost before = r@;
        r.push(string_from_chars(pieces[i].as_slice()));
        proof {
            assert(strings_view(r@) == strings_view(before).push(pieces@[i as int]@));
            assert(views(pieces@).take(i + 1) == views(pieces@).take(i as int).push(
                pieces@[i as int]@,
            ));
        }
        i = i + 1;
    }
    proof {
        assert(views(pieces@).take(i as int) == views(pieces@));
    }
    r
}

impl StatusEntry {
    /// Reads an entry as [`StatusEntry::try_from`] does, and gives `None`
    /// where that function's input is excluded.
    pub fn try_from_checked(from: Rfc822Map) -> (r: Option<Result<StatusEntry, Error>>)
        ensures
            outcome_matches(r, status_entry_spec(from@)),
    {
        let config_version = get_owned_entry(&from, "Config-Version");
        let depends = match from.get("Depends") {
            Some(depends_str) => {
                let chars = to_chars(depends_str.as_str());
                let sep = to_chars(", ");
                proof {
                    reveal_strlit(", ");
                }
                let pieces = split_chars(&chars, &sep);
                Some(strings_of(&pieces))
            },
            None => None,
        };
        let description = match get_entry(&from, "Description") {
            Ok(v) => v.clone(),
            Err(e) => {
                return Some(Err(e));
            },
        };
        let version = match get_entry(&from, "Version") {
            Ok(v) => v.clone(),
            Err(e) => {
                return Some(Err(e));
            },
        };
        let homepage = get_owned_entry(&from, "Homepage");
        let section = match get_entry(&from, "Section") {
            Ok(v) => v.clone(),
            Err(e) => {
                return Some(Err(e));
            },
        };
        let source = get_owned_entry(&from, "Source");
        let status = match get_entry(&from, "Status") {
            Ok(v) => v.clone(),
            Err(e) => {
                return Some(Err(e));
            },
        };
        let install_size = match get_entry(&from, "Installed-Size") {
            Ok(v) => match parse_usize(&to_chars(v.as_str())) {
                Ok(n) => n,
                Err(k) => {
                    return Some(Err(Error::ParseIntError(k)));
                },
            },
            Err(e) => {
                return Some(Err(e));
            },
        };
        let package = match get_entry(&from, "Package") {
            Ok(v) => v.clone(),
            Err(e) => {
                return Some(Err(e));
            },
        };
        let provides = get_owned_entry(&from, "Provides");
        let architecture = match get_entry(&from, "Architecture") {
            Ok(v) => v.clone(),
            Err(e) => {
                return Some(Err(e));
            },
        };
        let priority = match get_entry(&from, "Priority") {
            Ok(v) => v.clone(),
            Err(e) => {
                return Some(Err(e));
            },
        };
        let maintainer = match get_entry(&from, "Maintainer") {
            Ok(v) => v.clone(),
            Err(e) => {
                return Some(Err(e));
            },
        };
        let conffiles = match from.get("Conffiles") {
            Some(conffiles_str) => match config_files_checked(conffiles_str.as_str()) {
                None => {
                    return None;
                },
                Some(Err(e)) => {
                    return Some(Err(e));
                },
                Some(Ok(c)) => Some(c),
            },
            None => None,
        };
        let entry = StatusEntry {
            depends: depends,
            description: description,
            version: version,
            config_version: config_version,
            homepage: homepage,
            section: section,
            source: source,
            status: status,
            install_size: install_size,
            package: package,
            provides: provides,
            architecture: architecture,
            priority: priority,
            maintainer: maintainer,
            conffiles: conffiles,
        };
        Some(Ok(entry))
    }

    /// Reads the entry that a field map describes:
    /// every required field must be there, `Installed-Size`
    /// must read as a number, `Depends` is cut at each `", "` and
    /// `Conffiles` is read as [`crate::util::parse_config_files`] reads it.
    pub fn try_from(from: Rfc822Map) -> (r: Result<StatusEntry, Error>)
        requires
            status_entry_spec(from@) is Some,
        ensures
            outcome_matches(Some(r), status_entry_spec(from@)),
    {
        match StatusEntry::try_from_checked(from) {
            Some(r) => r,
            None => {
                proof {
                    assert(false);
                }
                Err(Error::InvalidStatusEntry)
            },
        }
    }
}

/// The entries of the given blocks, read after the entries `acc`: a block
/// with no fields is skipped, and a block that is refused as control data
/// halts the reading (`None`).
pub open spec fn status_blocks(blocks: Seq<Seq<char>>, acc: Seq<StatusModel>) -> Option<
    Result<Seq<StatusModel>, ErrorModel>,
>
    decreases blocks.len(),
{
    if blocks.len() == 0 {
        Some(Ok(acc))
    } else {
        match rfc822_spec(blocks[0]) {
            None => None,
            Some(f) => if f.len() == 0 {
                status_blocks(blocks.drop_first(), acc)
            } else {
                match status_entry_spec(f) {
                    None => None,
                    Some(Err(e)) => Some(Err(e)),
                    Some(Ok(m)) => status_blocks(blocks.drop_first(), acc.push(m)),
                }
            },
        }
    }
}

/// The blocks of a `status` file: the pieces between empty lines.
pub open spec fn status_file_blocks(s: Seq<char>) -> Seq<Seq<char>> {
    split(s, seq!['\n', '\n'])
}

/// The entries that the text of a `status` file describes, an error, or
/// `None` where reading it does not end.
pub open spec fn status_file_spec(s: Seq<char>) -> Option<Result<Seq<StatusModel>, ErrorModel>> {
    status_blocks(status_file_blocks(s), Seq::empty())
}

/// The models of the entries.
pub open spec fn models(v: Seq<StatusEntry>) -> Seq<StatusModel> {
    v.map_values(|e: StatusEntry| e@)
}

/// Reads the entries of a `status` file as [`parse_status_file`] does,
/// and gives `None` where that function's input is excluded: where a block
/// is refused as control data, or a `Conffiles` value cannot be read to
/// its end.
pub fn read_status_file(buffer: &str) -> (r: Option<Result<Vec<StatusEntry>, Error>>)
    ensures
        match (r, status_file_spec(buffer@)) {
            (None, None) => true,
            (Some(Ok(v)), Some(Ok(m))) => models(v@) == m,
            (Some(Err(e)), Some(Err(f))) => e@ == f,
            _ => false,
        },
{
    let chars = to_chars(buffer);
    let sep: Vec<char> = vec!['\n', '\n'];
    let blocks = split_chars(&chars, &sep);
    let ghost bs = views(blocks@);
    proof {
        assert(sep@ == seq!['\n', '\n']);
        assert(bs.skip(0) == bs);
    }
    let mut status_dicts: Vec<StatusEntry> = Vec::new();
    proof {
        assert(models(status_dicts@) =~= Seq::<StatusModel>::empty());
    }
    let mut i: usize = 0;
    while i < blocks.len()
        invariant
            i <= blocks.len(),
            bs == views(blocks@),
            bs == status_file_blocks(buffer@),
            status_file_spec(buffer@) == status_blocks(bs.skip(i as int), models(status_dicts@)),
        decreases blocks.len() - i,
    {
        let ghost rest = bs.skip(i as int);
        proof {
            assert(rest[0] == bs[i as int]);
            assert(rest.drop_first() == bs.skip(i + 1));
        }
        let block = string_from_chars(blocks[i].as_slice());
        match parse_rfc822_buffer(block.as_str()) {
            Err(_) => {
                return None;
            },
            Ok(status_dict) => {
                if status_dict.len() > 0 {
                    match StatusEntry::try_from_checked(status_dict) {
                        None => {
                            return None;
                        },
                        Some(Err(e)) => {
                            return Some(Err(e));
                        },
                        Some(Ok(entry)) => {
                            let ghost before = status_dicts@;
                            status_dicts.push(entry);
                            proof {
                                assert(models(status_dicts@) == models(before).push(entry@));
                            }
                        },
                    }
                }
            },
        }
        i = i + 1;
    }
    proof {
        assert(bs.skip(i as int).len() == 0);
    }
    Some(Ok(status_dicts))
}

/// Reads the entries of a `status` file (`parse_status_file`): the text is
/// cut at each empty line, each block is read as control data, and each
/// block with fields becomes an entry.
pub fn parse_status_file(buffer: &str) -> (r: Result<Vec<StatusEntry>, Error>)
    requires
        status_file_spec(buffer@) is Some,
    ensures
        match (r, status_file_spec(buffer@)) {
            (Ok(v), Some(Ok(m))) => models(v@) == m,
            (Err(e), Some(Err(f))) => e@ == f,
            _ => false,
        },
{
    match read_status_file(buffer) {
        Some(r) => r,
        None => {
            proof {
                assert(false);
            }
            Err(Error::InvalidStatusEntry)
        },
    }
}

/// The first entry of the given package.
pub open spec fn find_package(v: Seq<StatusModel>, name: Seq<char>) -> Option<StatusModel>
    decreases v.len(),
{
    if v.len() == 0 {
        None
    } else if v[0].package == name {
        Some(v[0])
    } else {
        find_package(v.drop_first(), name)
    }
}

/// The first entry whose package is `name` (what `get_status_pkg` looks
/// for among the entries of the `status` file).
pub fn find_status_pkg(statuses: Vec<StatusEntry>, name: &str) -> (r: Option<StatusEntry>)
    ensures
        match r {
            Some(s) => find_package(models(statuses@), name@) == Some(s@),
            None => find_package(models(statuses@), name@) is None,
        },
{
    let key = name.to_owned();
    let ghost all = models(statuses@);
    let mut v = statuses;
    proof {
        assert(all.skip(0) == all);
    }
    let mut i: usize = 0;
    while i < v.len()
        invariant
            i <= v.len(),
            all == models(v@),
            all == models(statuses@),
            key@ == name@,
            find_package(all, name@) == find_package(all.skip(i as int), name@),
        decreases v.len() - i,
    {
        proof {
            let rest = all.skip(i as int);
            assert(rest[0] == v@[i as int]@);
            assert(rest.drop_first() == all.skip(i + 1));
        }
        if v[i].package == key {
            let ghost before = v@;
            let found = v.remove(i);
            proof {
                assert(found == before[i as int]);
                assert(all[i as int] == found@);
                assert(all.skip(i as int)[0] == found@);
            }
            return Some(found);
        }
        i = i + 1;
    }
    proof {
        assert(all.skip(i as int).len() == 0);
    }
    None
}

/// The field maps of the blocks that hold at least one field, in order.
pub open spec fn field_blocks(blocks: Seq<Seq<char>>) -> Seq<Fields>
    decreases blocks.len(),
{
    if blocks.len() == 0 {
        Seq::empty()
    } else {
        let rest = field_blocks(blocks.drop_first());
        match rfc822_spec(blocks[0]) {
            Some(f) => if f.len() > 0 {
                seq![f] + rest
            } else {
                rest
            },
            None => rest,
        }
    }
}

proof fn lemma_status_blocks_per_block(blocks: Seq<Seq<char>>, acc: Seq<StatusModel>)
    requires
        status_blocks(blocks, acc) is Some,
        status_blocks(blocks, acc).unwrap() is Ok,
    ensures
        ({
            let m = status_blocks(blocks, acc).unwrap()->Ok_0;
            let fb = field_blocks(blocks);
            &&& m.len() == acc.len() + fb.len()
            &&& m.take(acc.len() as int) == acc
            &&& forall|i: int|
                0 <= i < fb.len() ==> status_entry_spec(#[trigger] fb[i]) == Some(
                    Ok::<StatusModel, ErrorModel>(m[acc.len() + i]),
                )
        }),
    decreases blocks.len(),
{
    if blocks.len() > 0 {
        let rest = blocks.drop_first();
        let f = rfc822_spec(blocks[0]).unwrap();
        if f.len() == 0 {
            lemma_status_blocks_per_block(rest, acc);
        } else {
            let e = status_entry_spec(f).unwrap()->Ok_0;
            lemma_status_blocks_per_block(rest, acc.push(e));
            let m = status_blocks(blocks, acc).unwrap()->Ok_0;
            let fb = field_blocks(blocks);
            assert(fb == seq![f] + field_blocks(rest));
            assert(m.take(acc.len() as int + 1) == acc.push(e));
            assert(m.take(acc.len() as int) == m.take(acc.len() as int + 1).take(acc.len() as int));
            assert(acc.push(e).take(acc.len() as int) == acc);
            assert(m[acc.len() as int] == m.take(acc.len() as int + 1)[acc.len() as int]);
            assert forall|i: int| 0 <= i < fb.len() implies status_entry_spec(#[trigger] fb[i])
                == Some(Ok::<StatusModel, ErrorModel>(m[acc.len() + i])) by {
                if i > 0 {
                    assert(fb[i] == field_blocks(rest)[i - 1]);
                }
            }
        }
    } else {
        assert(acc.take(acc.len() as int) == acc);
    }
}

/// Every block of a `status` file that holds fields gives one entry, in
/// order, whatever those fields say: the entries read are exactly the
/// entries of the blocks with fields.
pub proof fn lemma_one_entry_per_block(s: Seq<char>)
    requires
        status_file_spec(s) is Some,
        status_file_spec(s).unwrap() is Ok,
    ensures
        ({
            let m = status_file_spec(s).unwrap()->Ok_0;
            let fb = field_blocks(status_file_blocks(s));
            &&& m.len() == fb.len()
            &&& forall|i: int|
                0 <= i < fb.len() ==> status_entry_spec(#[trigger] fb[i]) == Some(
                    Ok::<StatusModel, ErrorModel>(m[i]),
                )
        }),
{
    lemma_status_blocks_per_block(status_file_blocks(s), Seq::empty());
}

/// The entry found is the first whose package has exactly the given name,
/// and none is found exactly when no entry has that name.
pub proof fn lemma_find_package(v: Seq<StatusModel>, name: Seq<char>)
    ensures
        find_package(v, name) matches Some(s) ==> s.package == name && exists|i: int|
            0 <= i < v.len() && v[i] == s && forall|j: int|
                0 <= j < i ==> (#[trigger] v[j]).package != name,
        find_package(v, name) is None <==> forall|j: int|
            0 <= j < v.len() ==> (#[trigger] v[j]).package != name,
    decreases v.len(),
{
    if v.len() > 0 {
        let t = v.drop_first();
        lemma_find_package(t, name);
        if v[0].package != name {
            if let Some(s) = find_package(t, name) {
                let i = choose|i: int|
                    0 <= i < t.len() && t[i] == s && forall|j: int|
                        0 <= j < i ==> (#[trigger] t[j]).package != name;
                assert(v[i + 1] == s);
                assert forall|j: int| 0 <= j < i + 1 implies (#[trigger] v[j]).package != name by {
                    if j > 0 {
                        assert(v[j] == t[j - 1]);
                    }
                }
            } else {
                assert forall|j: int| 0 <= j < v.len() implies (#[trigger] v[j]).package != name by {
                    if j > 0 {
                        assert(v[j] == t[j - 1]);
                    }
                }
            }
        }
    }
}

/// A field map that has every required field, a number of `n` in
/// `Installed-Size` and no `Conffiles` gives the entry whose texts are the
/// values of the fields of the same names, whose size is `n`, and whose
/// dependencies are the `Depends` value cut at each `", "`.
pub proof fn lemma_status_entry_fields(e: Fields, n: nat)
    requires
        lookup(e, "Description"@) is Some,
        lookup(e, "Version"@) is Some,
        lookup(e, "Section"@) is Some,
        lookup(e, "Status"@) is Some,
        lookup(e, "Installed-Size"@) == Some(crate::number::decimal_text(n)),
        n <= usize::MAX,
        lookup(e, "Package"@) is Some,
        lookup(e, "Architecture"@) is Some,
        lookup(e, "Priority"@) is Some,
        lookup(e, "Maintainer"@) is Some,
        lookup(e, "Conffiles"@) is None,
    ensures
        status_entry_spec(e) matches Some(Ok(m)) && {
            &&& Some(m.description) == lookup(e, "Description"@)
            &&& Some(m.version) == lookup(e, "Version"@)
            &&& Some(m.section) == lookup(e, "Section"@)
            &&& Some(m.status) == lookup(e, "Status"@)
            &&& m.install_size == n
            &&& Some(m.package) == lookup(e, "Package"@)
            &&& Some(m.architecture) == lookup(e, "Architecture"@)
            &&& Some(m.priority) == lookup(e, "Priority"@)
            &&& Some(m.maintainer) == lookup(e, "Maintainer"@)
            &&& m.config_version == lookup(e, "Config-Version"@)
            &&& m.homepage == lookup(e, "Homepage"@)
            &&& m.source == lookup(e, "Source"@)
            &&& m.provides == lookup(e, "Provides"@)
            &&& m.conffiles is None
            &&& (m.depends matches Some(d) ==> lookup(e, "Depends"@) matches Some(t) && crate::text::join(
                d,
                ", "@,
            ) == t)
            &&& (m.depends is None <==> lookup(e, "Depends"@) is None)
        },
{
    crate::number::lemma_parse_decimal_text(n);
    if let Some(t) = lookup(e, "Depends"@) {
        crate::text::lemma_join_split(t, ", "@);
    }
}

} // verus!
