//! The decisions taken while reading a `.deb` archive and while removing a
//! package: which archive members to unpack, and what removal does.

use vstd::prelude::*;
use vstd::string::StringExecFns;

use crate::status::StatusEntry;
use crate::text::{chars_equal, starts_with_chars, to_chars};
use crate::util::{file_ext_spec, get_file_ext};
use crate::warning::Warning;

verus! {

/// How an archive member is compressed.
#[derive(Debug, Clone, Copy, PartialEq, Eq, Structural)]
pub enum Compression {
    /// `.xz`, read with LZMA.
    Xz,
    /// `.gz`, read with gzip.
    Gz,
}

/// What to do with a member of a `.deb` archive.
#[derive(Debug, Clone, Copy, PartialEq, Eq, Structural)]
pub enum DebMember {
    /// The control archive, to be read for its `./control` file.
    ControlTar(Compression),
    /// The data archive, to be listed.
    DataTar(Compression),
    /// Anything else: skipped.
    Other,
}

/// The compression that an extension names.
pub open spec fn compression_of(ext: Option<Seq<char>>) -> Option<Compression> {
    match ext {
        Some(e) => if e == ".xz"@ {
            Some(Compression::Xz)
        } else if e == ".gz"@ {
            Some(Compression::Gz)
        } else {
            None
        },
        None => None,
    }
}

/// What to do with the archive member of the given name.
pub open spec fn deb_member_spec(ident: Seq<char>) -> DebMember {
    if "control.tar"@.is_prefix_of(ident) {
        match compression_of(file_ext_spec(ident)) {
            Some(c) => DebMember::ControlTar(c),
            None => DebMember::Other,
        }
    } else if "data.tar"@.is_prefix_of(ident) {
        match compression_of(file_ext_spec(ident)) {
            Some(c) => DebMember::DataTar(c),
            None => DebMember::Other,
        }
    } else {
        DebMember::Other
    }
}

fn compression_from_ext(ident: &str) -> (r: Option<Compression>)
    ensures
        r == compression_of(file_ext_spec(ident@)),
{
    match get_file_ext(ident) {
        Some(ext) => {
            let e = to_chars(ext);
            let xz = to_chars(".xz");
            let gz = to_chars(".gz");
            if chars_equal(&e, &xz) {
                Some(Compression::Xz)
            } else if chars_equal(&e, &gz) {
                Some(Compression::Gz)
            } else {
                None
            }
        },
        None => None,
    }
}

/// What to do with a member of a `.deb` archive, by its name (the choice
/// that `handle_deb` makes): a control or data archive compressed with xz
/// or gzip is read, and anything else is skipped.
pub fn deb_member_kind(ident: &str) -> (r: DebMember)
    ensures
        r == deb_member_spec(ident@),
{
    let chars = to_chars(ident);
    let control = to_chars("control.tar");
    let data = to_chars("data.tar");
    if starts_with_chars(&chars, &control) {
        match compression_from_ext(ident) {
            Some(c) => DebMember::ControlTar(c),
            None => DebMember::Other,
        }
    } else if starts_with_chars(&chars, &data) {
        match compression_from_ext(ident) {
            Some(c) => DebMember::DataTar(c),
            None => DebMember::Other,
        }
    } else {
        DebMember::Other
    }
}

/// What removing a package does.
pub enum RemovalPlan {
    /// The package is not installed: warn and do nothing.
    NotInstalled(Warning),
    /// Only the configuration files of the package are left: warn and do
    /// nothing.
    ConfigFilesOnly(Warning),
    /// Run the `prerm` script, delete the files that the list names, then
    /// run the `postrm` script; each is skipped where it does not exist.
    Remove { prerm: String, list: String, postrm: String },
}

/// The model of a [`RemovalPlan`].
pub enum RemovalModel {
    NotInstalled(Seq<char>),
    ConfigFilesOnly(Seq<char>),
    Remove { prerm: Seq<char>, list: Seq<char>, postrm: Seq<char> },
}

impl View for RemovalPlan {
    type V = RemovalModel;

    open spec fn view(&self) -> RemovalModel {
        match self {
            RemovalPlan::NotInstalled(w) => RemovalModel::NotInstalled(w@),
            RemovalPlan::ConfigFilesOnly(w) => RemovalModel::ConfigFilesOnly(w@),
            RemovalPlan::Remove { prerm, list, postrm } => RemovalModel::Remove {
                prerm: prerm@,
                list: list@,
                postrm: postrm@,
            },
        }
    }
}

/// Where dpkg keeps the scripts and file lists of a package.
pub open spec fn info_dir() -> Seq<char> {
    "/var/lib/dpkg/info/"@
}

/// The path of a package's file with the given suffix, the name joined to
/// the info directory as `Path::join` joins: an absolute name stands alone.
pub open spec fn info_path(name: Seq<char>, suffix: Seq<char>) -> Seq<char> {
    if name.len() > 0 && name[0] == '/' {
        name + suffix
    } else {
        info_dir() + name + suffix
    }
}

/// The removal of the package `name`, given what the `status` file says of
/// it.
pub open spec fn removal_spec(name: Seq<char>, status: Option<Seq<char>>) -> RemovalModel {
    match status {
        None => RemovalModel::NotInstalled(
            "ignoring request to remove "@ + name + " which isn't installed"@,
        ),
        Some(st) => if st == "deinstall ok config-files"@ {
            RemovalModel::ConfigFilesOnly(
                "ignoring request to remove "@ + name
                    + ", only the config \n files of which are on the system; use --purge to remove them too."@,
            )
        } else {
            RemovalModel::Remove {
                prerm: info_path(name, ".prerm"@),
                list: info_path(name, ".list"@),
                postrm: info_path(name, ".postrm"@),
            }
        },
    }
}

fn info_path_string(name: &str, suffix: &str) -> (s: String)
    ensures
        s@ == info_path(name@, suffix@),
{
    let chars = to_chars(name);
    if chars.len() > 0 && chars[0] == '/' {
        let mut s = name.to_owned();
        s.append(suffix);
        s
    } else {
        let mut s = String::from_str("/var/lib/dpkg/info/");
        s.append(name);
        s.append(suffix);
        s
    }
}

/// What removing the package `name` does (the choices that `remove_pkg`
/// makes), given its entry in the `status` file.
pub fn plan_removal(name: &str, status: Option<&StatusEntry>) -> (r: RemovalPlan)
    ensures
        r@ == removal_spec(
            name@,
            match status {
                Some(e) => Some(e.status@),
                None => None,
            },
        ),
{
    match status {
        None => {
            let mut msg = String::from_str("ignoring request to remove ");
            msg.append(name);
            msg.append(" which isn't installed");
            RemovalPlan::NotInstalled(Warning::new(msg.as_str()))
        },
        Some(entry) => {
            let config_only = String::from_str("deinstall ok config-files");
            if entry.status == config_only {
                let mut msg = String::from_str("ignoring request to remove ");
                msg.append(name);
                msg.append(
                    ", only the config \n files of which are on the system; use --purge to remove them too.",
                );
                RemovalPlan::ConfigFilesOnly(Warning::new(msg.as_str()))
            } else {
                RemovalPlan::Remove {
                    prerm: info_path_string(name, ".prerm"),
                    list: info_path_string(name, ".list"),
                    postrm: info_path_string(name, ".postrm"),
                }
            }
        },
    }
}

} // verus!
