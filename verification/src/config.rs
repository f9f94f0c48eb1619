//! The two folders the tools work with.

use std::path::PathBuf;
use vstd::prelude::*;

verus! {

/// An owned file system path (`std::path::PathBuf`), carried through opaque.
#[verifier::external_type_specification]
#[verifier::external_body]
pub struct ExPathBuf(PathBuf);

/// The text of a path where it is valid Unicode (`Path::to_str`), `None`
/// where it is not.
pub uninterp spec fn path_text(p: PathBuf) -> Option<Seq<char>>;

/// A path separator on some platform: `/` everywhere, `\` on Windows.
pub open spec fn is_sep_char(c: char) -> bool {
    c == '/' || c == '\\'
}

/// An ASCII letter, as a Windows drive letter must be.
pub open spec fn is_ascii_letter(c: char) -> bool {
    ('a' <= c && c <= 'z') || ('A' <= c && c <= 'Z')
}

/// `s` begins with a Windows drive, such as `C:`.
pub open spec fn starts_with_drive(s: Seq<char>) -> bool {
    s.len() >= 2 && is_ascii_letter(s[0]) && s[1] == ':'
}

/// A file name that is relative on every platform: not empty, not beginning
/// with a separator (a root) nor with a drive.
pub open spec fn is_relative_name(name: Seq<char>) -> bool {
    name.len() > 0 && !is_sep_char(name[0]) && !starts_with_drive(name)
}

/// A folder written with a Windows verbatim prefix (`\\?\`), under which
/// joining also rewrites `.` and `..`.
pub open spec fn has_verbatim_prefix(dir: Seq<char>) -> bool {
    dir.len() >= 4 && dir[0] == '\\' && dir[1] == '\\' && dir[2] == '?' && dir[3] == '\\'
}

/// `t` is `dir` extended by the relative `name`: the text of `dir`, then at
/// most one separator (`/` or `\`), then the text of `name`. Whether a
/// separator is written, and which, is left to the platform.
pub open spec fn is_joined(t: Seq<char>, dir: Seq<char>, name: Seq<char>) -> bool {
    ||| t == dir + name
    ||| t == dir + seq!['/'] + name
    ||| t == dir + seq!['\\'] + name
}

/// The path text `o` is valid Unicode and is `dir` joined with `name`.
pub open spec fn text_is_joined(o: Option<Seq<char>>, dir: Seq<char>, name: Seq<char>) -> bool {
    o matches Some(t) && is_joined(t, dir, name)
}

/// Where input files are read from and results are written to.
#[derive(Clone, Debug)]
pub struct AppConfig {
    pub input_dir: String,
    pub output_dir: String,
}

impl Default for AppConfig {
    /// The current folder for input, `./output` for results.
    fn default() -> (r: Self)
        ensures
            r.input_dir@ == "."@,
            r.output_dir@ == "./output"@,
    {
        AppConfig { input_dir: String::from_str("."), output_dir: String::from_str("./output") }
    }
}

impl AppConfig {
    /// The path of the file `filename` in the input folder: the folder
    /// extended by the name.
    pub fn input_path(&self, filename: &str) -> (r: PathBuf)
        ensures
            is_relative_name(filename@) && !has_verbatim_prefix(self.input_dir@) ==> text_is_joined(
                path_text(r),
                self.input_dir@,
                filename@,
            ),
    {
        join_path(self.input_dir.as_str(), filename)
    }

    /// The path of the file `filename` in the output folder: the folder
    /// extended by the name.
    pub fn output_path(&self, filename: &str) -> (r: PathBuf)
        ensures
            is_relative_name(filename@) && !has_verbatim_prefix(self.output_dir@) ==> text_is_joined(
                path_text(r),
                self.output_dir@,
                filename@,
            ),
    {
        join_path(self.output_dir.as_str(), filename)
    }
}

/// `Path::join`: a relative `name` extends the path `dir`. The result is
/// the text of `dir`, then at most one separator, then the text of `name`,
/// so it is valid Unicode. Stated for a name relative on every platform (not
/// empty, no leading separator, no drive) and a folder without a Windows
/// verbatim prefix. Left unsaid: whether a separator is written and which
/// one (the platform decides), and the outcome for other inputs, where an
/// absolute name replaces the folder by the platform's own rules.
#[verifier::external_body]
fn join_path(dir: &str, name: &str) -> (r: PathBuf)
    ensures
        is_relative_name(name@) && !has_verbatim_prefix(dir@) ==> text_is_joined(
            path_text(r),
            dir@,
            name@,
        ),
{
    std::path::Path::new(dir).join(name)
}

} // verus!
