//! A verified library for reading the Debian package database: RFC 822 style
//! control data, `status` file entries, configuration file checksums and the
//! decisions taken while inspecting or removing a package.

pub mod text;
pub mod error;
pub mod strmap;
pub mod rfc822;
pub mod number;
pub mod util;
pub mod status;
pub mod warning;
pub mod deb;
