//! Warnings, displayed in colour as dpkg displays them.

use vstd::prelude::*;
use vstd::string::StringExecFns;

use crate::number::decimal_text;

verus! {

/// The escape sequence that sets the foreground to a true colour:
/// `ESC [ 38 ; 2 ; r ; g ; b m`, each part in decimal.
pub open spec fn rgb_fg_text(r: u8, g: u8, b: u8) -> Seq<char> {
    seq!['\x1b', '[', '3', '8', ';', '2', ';'] + decimal_text(r as nat) + seq![';']
        + decimal_text(g as nat) + seq![';'] + decimal_text(b as nat) + seq!['m']
}

/// The escape sequence that sets the foreground colour
/// (`termion::color::Rgb::fg_string`): `"\x1B[38;2;"`, then the three
/// parts in decimal separated by `;`, then `m`.
#[verifier::external_body]
fn rgb_fg_string(r: u8, g: u8, b: u8) -> (s: String)
    ensures
        s@ == rgb_fg_text(r, g, b),
{
    termion::color::Rgb(r, g, b).fg_string()
}

/// A warning to the user.
pub struct Warning {
    message: String,
}

impl View for Warning {
    type V = Seq<char>;

    closed spec fn view(&self) -> Seq<char> {
        self.message@
    }
}

/// The display of a warning: `dpkg: ` in bright white, `warning:` in
/// bright yellow, then the message in grey.
pub open spec fn warning_text(message: Seq<char>) -> Seq<char> {
    rgb_fg_text(255, 255, 255) + "dpkg: "@ + rgb_fg_text(255, 255, 0) + "warning:"@
        + rgb_fg_text(128, 128, 128) + " "@ + message
}

impl Warning {
    /// A warning with the given message.
    pub fn new(message: &str) -> (w: Self)
        ensures
            w@ == message@,
    {
        Self { message: message.to_owned() }
    }

    /// The text that displays the warning.
    pub fn render(&self) -> (s: String)
        ensures
            s@ == warning_text(self@),
    {
        let bright_white = rgb_fg_string(255, 255, 255);
        let bright_yellow = rgb_fg_string(255, 255, 0);
        let grey = rgb_fg_string(128, 128, 128);
        let mut s = bright_white;
        s.append("dpkg: ");
        s.append(bright_yellow.as_str());
        s.append("warning:");
        s.append(grey.as_str());
        s.append(" ");
        s.append(self.message.as_str());
        s
    }
}

} // verus!
