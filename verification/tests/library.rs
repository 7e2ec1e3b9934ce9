use rs_dpkg::deb::{deb_member_kind, plan_removal, Compression, DebMember, RemovalPlan};
use rs_dpkg::error::{Error, IntErrorKind};
use rs_dpkg::rfc822::{fmt_rfc822, parse_rfc822_buffer, Rfc822Map};
use rs_dpkg::status::{
    find_status_pkg, get_entry, get_owned_entry, parse_status_file, read_status_file,
    StatusEntry,
};
use rs_dpkg::strmap::StrMap;
use rs_dpkg::text::to_chars;
use rs_dpkg::util::{
    config_files_checked, md5_hex_checked,
    get_file_ext, hex_string_to_md5, list_file_lines, parse_config_files, Md5Digest, OkOrMap,
};
use rs_dpkg::warning::Warning;

fn get(m: &Rfc822Map, k: &str) -> Option<String> {
    m.get(k).cloned()
}

const HEX: &str = "0123456789abcdef0123456789ABCDEF";

fn hex_digest() -> [u8; 16] {
    [0, 2, 4, 6, 8, 10, 12, 14, 0, 2, 4, 6, 8, 10, 12, 14]
}

// ---------------------------------------------------------------- rfc822

#[test]
fn rfc822_simple_fields() {
    let m = parse_rfc822_buffer("Package: foo\nVersion: 1.0\n").unwrap();
    assert_eq!(m.len(), 2);
    assert_eq!(get(&m, "Package"), Some("foo".to_string()));
    assert_eq!(get(&m, "Version"), Some("1.0".to_string()));
    assert_eq!(get(&m, "Missing"), None);
}

#[test]
fn rfc822_value_is_trimmed_of_unicode_white_space() {
    let m = parse_rfc822_buffer("A: \u{3000} x y\u{a0}\t").unwrap();
    assert_eq!(get(&m, "A"), Some("x y".to_string()));
}

#[test]
fn rfc822_key_keeps_its_spaces_and_splits_at_first_colon() {
    let m = parse_rfc822_buffer("Key :a:b").unwrap();
    assert_eq!(get(&m, "Key "), Some("a:b".to_string()));
}

#[test]
fn rfc822_folded_lines_are_appended_whole() {
    let m = parse_rfc822_buffer("Description: short\n long line\n\tand tab").unwrap();
    assert_eq!(
        get(&m, "Description"),
        Some("short long line\tand tab".to_string())
    );
}

#[test]
fn rfc822_folded_line_with_colon_names_a_field() {
    let m = parse_rfc822_buffer("A: b\n c: d").unwrap();
    assert_eq!(m.len(), 2);
    assert_eq!(get(&m, "A"), Some("b".to_string()));
    assert_eq!(get(&m, " c"), Some("d c: d".to_string()));
}

#[test]
fn rfc822_later_value_replaces_earlier() {
    let m = parse_rfc822_buffer("A: 1\nB: 2\nA: 3").unwrap();
    assert_eq!(m.len(), 2);
    assert_eq!(get(&m, "A"), Some("3".to_string()));
    let (k, v) = m.entry(0);
    assert_eq!((k.as_str(), v.as_str()), ("A", "3"));
}

#[test]
fn rfc822_orphan_continuation_is_refused() {
    assert!(matches!(
        parse_rfc822_buffer(" leading\nA: b"),
        Err(Error::InvalidFoldedValue)
    ));
    assert!(matches!(
        parse_rfc822_buffer("no colon\n\tcontinued"),
        Err(Error::InvalidFoldedValue)
    ));
}

#[test]
fn rfc822_deleting_inert_lines_changes_nothing() {
    let full = parse_rfc822_buffer("A: b\n\nno colon here\n c\nD: e\n").unwrap();
    let cut = parse_rfc822_buffer("A: b\n c\nD: e").unwrap();
    assert_eq!(fmt_rfc822(full), fmt_rfc822(cut));
    assert!(matches!(
        parse_rfc822_buffer("junk\n\n x\nA: b"),
        Err(Error::InvalidFoldedValue)
    ));
    assert!(matches!(parse_rfc822_buffer(" x\nA: b"), Err(Error::InvalidFoldedValue)));
}

#[test]
fn total_readers_give_none_where_excluded() {
    assert!(md5_hex_checked("é23456789abcdef0123456789abcdef").is_none());
    assert!(matches!(md5_hex_checked("0123"), Some(Err(Error::MD5Error))));
    assert!(config_files_checked("/etc/a").is_none());
    assert_eq!(config_files_checked("").map(|r| r.is_ok()), None);
    let m = parse_rfc822_buffer(ENTRY).unwrap();
    assert!(matches!(StatusEntry::try_from_checked(m), Some(Ok(_))));
}

#[test]
fn rfc822_empty_text_has_no_fields() {
    assert_eq!(parse_rfc822_buffer("").unwrap().len(), 0);
    assert_eq!(parse_rfc822_buffer("\n\nno colon here\n").unwrap().len(), 0);
}

#[test]
fn fmt_rfc822_one_line_per_field() {
    let mut m: Rfc822Map = StrMap::new();
    m.insert("Package".to_string(), "foo".to_string());
    m.insert("Version".to_string(), "1.0".to_string());
    assert_eq!(fmt_rfc822(m), "Package: foo\nVersion: 1.0");
    assert_eq!(fmt_rfc822(StrMap::new()), "");
}

#[test]
fn fmt_then_parse_gives_the_map_back() {
    let mut m: Rfc822Map = StrMap::new();
    m.insert("Package".to_string(), "foo".to_string());
    m.insert("Depends".to_string(), "libc6 (>= 2.3), bar".to_string());
    m.insert("Empty".to_string(), "".to_string());
    let text = fmt_rfc822(m);
    let back = parse_rfc822_buffer(&text).unwrap();
    assert_eq!(back.len(), 3);
    assert_eq!(get(&back, "Package"), Some("foo".to_string()));
    assert_eq!(get(&back, "Depends"), Some("libc6 (>= 2.3), bar".to_string()));
    assert_eq!(get(&back, "Empty"), Some("".to_string()));
    assert_eq!(fmt_rfc822(back), text);
}

// ---------------------------------------------------------------- maps

#[test]
fn strmap_read_after_write() {
    let mut m: StrMap<String> = StrMap::new();
    m.insert("a".to_string(), "1".to_string());
    m.insert("b".to_string(), "2".to_string());
    m.insert("a".to_string(), "3".to_string());
    assert_eq!(m.get("a").map(|s| s.as_str()), Some("3"));
    assert_eq!(m.get("b").map(|s| s.as_str()), Some("2"));
    assert_eq!(m.len(), 2);
}

#[test]
fn ok_or_map_gives_value_or_error() {
    let m = parse_rfc822_buffer("A: b").unwrap();
    assert_eq!(m.get_or("A", 7).map(|s| s.as_str()), Ok("b"));
    assert_eq!(m.get_or("B", 7), Err(7));
}

// ---------------------------------------------------------------- util

#[test]
fn file_ext_from_last_dot() {
    assert_eq!(get_file_ext("control.tar.xz"), Some(".xz"));
    assert_eq!(get_file_ext("data.tar.gz"), Some(".gz"));
    assert_eq!(get_file_ext("a.b/c"), Some(".b/c"));
    assert_eq!(get_file_ext("trailing."), Some("."));
    assert_eq!(get_file_ext("noext"), None);
    assert_eq!(get_file_ext("é.ü"), Some(".ü"));
}

#[test]
fn md5_reads_every_other_hex_digit() {
    let d = hex_string_to_md5(HEX).unwrap();
    assert_eq!(d, Md5Digest(hex_digest()));
    let d = hex_string_to_md5("0z1z2z3z4z5z6z7z8z9zAzBzCzDzEzFz").unwrap();
    assert_eq!(d.0, [0, 1, 2, 3, 4, 5, 6, 7, 8, 9, 10, 11, 12, 13, 14, 15]);
}

#[test]
fn md5_wrong_length_is_refused() {
    assert!(matches!(hex_string_to_md5("0123"), Err(Error::MD5Error)));
    assert!(matches!(hex_string_to_md5(""), Err(Error::MD5Error)));
}

#[test]
fn md5_non_hex_digit_is_refused() {
    assert!(matches!(
        hex_string_to_md5("g123456789abcdef0123456789abcdef"),
        Err(Error::ParseIntError(IntErrorKind::InvalidDigit))
    ));
    assert!(matches!(
        hex_string_to_md5("+123456789abcdef0123456789abcdef"),
        Err(Error::ParseIntError(IntErrorKind::InvalidDigit))
    ));
}

#[test]
fn config_files_in_pairs() {
    let text = format!("  /etc/a {} /etc/b {}\n", HEX, "00000000000000000000000000000000");
    let c = parse_config_files(&text).unwrap();
    assert_eq!(c.len(), 2);
    assert_eq!(c.get("/etc/a"), Some(&Md5Digest(hex_digest())));
    assert_eq!(c.get("/etc/b"), Some(&Md5Digest([0; 16])));
}

#[test]
fn config_files_split_at_single_spaces_only() {
    let text = format!("/etc/a {}\n/etc/b {}", HEX, HEX);
    assert!(matches!(parse_config_files(&text), Err(Error::MD5Error)));
}

#[test]
fn config_files_bad_checksum_is_refused() {
    assert!(matches!(
        parse_config_files("/etc/a 1234"),
        Err(Error::MD5Error)
    ));
}

#[test]
fn list_final_newline_adds_no_line() {
    assert_eq!(list_file_lines("/usr/bin/a\n/etc/b"), list_file_lines("/usr/bin/a\n/etc/b\n"));
    assert_eq!(list_file_lines("x"), vec!["x"]);
}

#[test]
fn depends_pieces_join_back() {
    let e = StatusEntry::try_from(parse_rfc822_buffer(ENTRY).unwrap()).unwrap();
    assert_eq!(e.depends.unwrap().join(", "), "libc6 (>= 2.3), bar, baz");
}

#[test]
fn list_lines_as_str_lines() {
    assert_eq!(list_file_lines("a\r\nb\n"), vec!["a", "b"]);
    assert_eq!(list_file_lines("a\n\n"), vec!["a", ""]);
    assert_eq!(list_file_lines("x\r"), vec!["x\r"]);
    assert_eq!(list_file_lines(""), Vec::<String>::new());
    assert_eq!(list_file_lines("\n"), vec![""]);
}

// ---------------------------------------------------------------- status

const ENTRY: &str = "Package: foo\n\
Status: install ok installed\n\
Priority: optional\n\
Section: utils\n\
Installed-Size: 123\n\
Maintainer: Someone <someone@example.org>\n\
Architecture: amd64\n\
Version: 1.2-3\n\
Depends: libc6 (>= 2.3), bar, baz\n\
Conffiles:\n /etc/foo.conf 0123456789abcdef0123456789ABCDEF\n\
Description: a package\n more text\n\
Homepage: https://example.org\n";

#[test]
fn status_entry_from_fields() {
    let e = StatusEntry::try_from(parse_rfc822_buffer(ENTRY).unwrap()).unwrap();
    assert_eq!(e.package, "foo");
    assert_eq!(e.status, "install ok installed");
    assert_eq!(e.install_size, 123);
    assert_eq!(
        e.depends,
        Some(vec!["libc6 (>= 2.3)".to_string(), "bar".to_string(), "baz".to_string()])
    );
    assert_eq!(e.description, "a package more text");
    assert_eq!(e.homepage, Some("https://example.org".to_string()));
    assert_eq!(e.source, None);
    assert_eq!(e.provides, None);
    assert_eq!(e.config_version, None);
    let c = e.conffiles.unwrap();
    assert_eq!(c.len(), 1);
    assert_eq!(c.get("/etc/foo.conf"), Some(&Md5Digest(hex_digest())));
}

#[test]
fn status_entry_missing_field_named_in_order() {
    let r = StatusEntry::try_from(parse_rfc822_buffer("Package: foo\nVersion: 1").unwrap());
    match r {
        Err(Error::MissingStatusEntryField(f)) => assert_eq!(f, "Description"),
        _ => panic!("expected a missing field"),
    }
    let text = ENTRY.replace("Maintainer", "Maint");
    match StatusEntry::try_from(parse_rfc822_buffer(&text).unwrap()) {
        Err(Error::MissingStatusEntryField(f)) => assert_eq!(f, "Maintainer"),
        _ => panic!("expected a missing field"),
    }
}

#[test]
fn status_entry_installed_size_must_be_a_number() {
    let cases = [
        ("abc", IntErrorKind::InvalidDigit),
        ("+", IntErrorKind::InvalidDigit),
        ("-1", IntErrorKind::InvalidDigit),
        ("999999999999999999999999", IntErrorKind::PosOverflow),
    ];
    for (size, kind) in cases {
        let text = ENTRY.replace("Installed-Size: 123", &format!("Installed-Size: {}", size));
        match StatusEntry::try_from(parse_rfc822_buffer(&text).unwrap()) {
            Err(Error::ParseIntError(k)) => assert_eq!(k, kind),
            _ => panic!("expected a number error"),
        }
    }
    let text = ENTRY.replace("Installed-Size: 123", "Installed-Size:");
    match StatusEntry::try_from(parse_rfc822_buffer(&text).unwrap()) {
        Err(Error::ParseIntError(k)) => assert_eq!(k, IntErrorKind::Empty),
        _ => panic!("expected a number error"),
    }
    let text = ENTRY.replace("Installed-Size: 123", "Installed-Size: +42");
    let e = StatusEntry::try_from(parse_rfc822_buffer(&text).unwrap()).unwrap();
    assert_eq!(e.install_size, 42);
}

#[test]
fn get_entry_and_get_owned_entry() {
    let m = parse_rfc822_buffer("A: b").unwrap();
    assert_eq!(get_entry(&m, "A").unwrap(), "b");
    match get_entry(&m, "Z") {
        Err(Error::MissingStatusEntryField(f)) => assert_eq!(f, "Z"),
        _ => panic!("expected a missing field"),
    }
    assert_eq!(get_owned_entry(&m, "A"), Some("b".to_string()));
    assert_eq!(get_owned_entry(&m, "Z"), None);
}

#[test]
fn status_file_blocks_and_lookup() {
    let second = ENTRY.replace("Package: foo", "Package: bar");
    let text = format!("{}\n{}\n", ENTRY, second);
    let entries = parse_status_file(&text).unwrap();
    assert_eq!(entries.len(), 2);
    assert_eq!(entries[0].package, "foo");
    assert_eq!(entries[1].package, "bar");
    let found = find_status_pkg(entries, "bar").unwrap();
    assert_eq!(found.package, "bar");
    let entries = parse_status_file(&text).unwrap();
    assert!(find_status_pkg(entries, "qux").is_none());
}

#[test]
fn status_file_error_and_excluded_inputs() {
    let text = format!("{}\nPackage: broken\n", ENTRY);
    match parse_status_file(&text) {
        Err(Error::MissingStatusEntryField(f)) => assert_eq!(f, "Description"),
        _ => panic!("expected a missing field"),
    }
    assert!(read_status_file(" orphan\n").is_none());
    let odd = ENTRY.replace(" /etc/foo.conf 0123456789abcdef0123456789ABCDEF", " /etc/foo.conf");
    assert!(read_status_file(&odd).is_none());
    assert_eq!(read_status_file("\n\n\n\n").unwrap().unwrap().len(), 0);
}

// ---------------------------------------------------------------- deb

#[test]
fn deb_members() {
    assert_eq!(deb_member_kind("control.tar.xz"), DebMember::ControlTar(Compression::Xz));
    assert_eq!(deb_member_kind("control.tar.gz"), DebMember::ControlTar(Compression::Gz));
    assert_eq!(deb_member_kind("data.tar.xz"), DebMember::DataTar(Compression::Xz));
    assert_eq!(deb_member_kind("data.tar.gz"), DebMember::DataTar(Compression::Gz));
    assert_eq!(deb_member_kind("data.tar.zst"), DebMember::Other);
    assert_eq!(deb_member_kind("debian-binary"), DebMember::Other);
    assert_eq!(deb_member_kind("control.tar"), DebMember::Other);
}

#[test]
fn removal_plans() {
    match plan_removal("tcsh", None) {
        RemovalPlan::NotInstalled(w) => {
            assert!(w.render().ends_with(" ignoring request to remove tcsh which isn't installed"))
        }
        _ => panic!("expected a warning"),
    }
    let text = ENTRY.replace("install ok installed", "deinstall ok config-files");
    let e = StatusEntry::try_from(parse_rfc822_buffer(&text).unwrap()).unwrap();
    match plan_removal("foo", Some(&e)) {
        RemovalPlan::ConfigFilesOnly(w) => assert!(w.render().ends_with(
            " ignoring request to remove foo, only the config \n files of which are on the system; use --purge to remove them too."
        )),
        _ => panic!("expected a warning"),
    }
    let e = StatusEntry::try_from(parse_rfc822_buffer(ENTRY).unwrap()).unwrap();
    match plan_removal("foo", Some(&e)) {
        RemovalPlan::Remove { prerm, list, postrm } => {
            assert_eq!(prerm, "/var/lib/dpkg/info/foo.prerm");
            assert_eq!(list, "/var/lib/dpkg/info/foo.list");
            assert_eq!(postrm, "/var/lib/dpkg/info/foo.postrm");
        }
        _ => panic!("expected a removal"),
    }
    match plan_removal("/abs", Some(&e)) {
        RemovalPlan::Remove { prerm, .. } => assert_eq!(prerm, "/abs.prerm"),
        _ => panic!("expected a removal"),
    }
}

// ---------------------------------------------------------------- warnings and errors

#[test]
fn warning_renders_in_colour() {
    let w = Warning::new("careful");
    assert_eq!(
        w.render(),
        "\x1b[38;2;255;255;255mdpkg: \x1b[38;2;255;255;0mwarning:\x1b[38;2;128;128;128m careful"
    );
}

#[test]
fn error_messages() {
    assert_eq!(
        Error::MissingStatusEntryField("Package".to_string()).message(),
        "Missing required field \"Package\" from status file."
    );
    assert_eq!(
        Error::MD5Error.message(),
        "Invalid String size: MD5 Checksum must be 32 characters long."
    );
    assert_eq!(
        Error::ParseIntError(IntErrorKind::Empty).message(),
        "cannot parse integer from empty string"
    );
    assert_eq!(
        Error::ParseIntError(IntErrorKind::PosOverflow).description(),
        "number too large to fit in target type"
    );
    assert_eq!(Error::InvalidPath.description(), "Unimplemented message");
}

#[test]
fn chars_of_text() {
    assert_eq!(to_chars("aé"), vec!['a', 'é']);
}
