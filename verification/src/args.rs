//! Classification of the concatenator's command-line arguments, and the
//! wording of its input-access errors.
//!
//! One argument is either `-` (standard input), a known option matched by
//! its short or long name, an unrecognized option (it begins with `-`), or a
//! file name. The caller owns the option table and the I/O; the
//! classification itself is pure.

use vstd::prelude::*;

use crate::scan::{eq_bytes, DASH};
use vstd::string::StringSliceAdditionalSpecFns;

verus! {

/// Classification of cat's arguments.
#[derive(Debug, Clone)]
pub enum CatArg {
    Ends,
    File(String),
    Help,
    Number,
    Squeeze,
    Stdin,
    Version,
}

/// One entry of the option table: the argument an option stands for, its
/// two spellings, and its help line.
#[derive(Debug)]
pub struct CatArgDef {
    pub arg: CatArg,
    pub shortname: &'static str,
    pub longname: &'static str,
    pub help: &'static str,
}

/// What one command-line argument turned out to be: standard input, the
/// option at an index of the table, a file name, or an option nobody knows.
#[derive(Debug, Clone, Copy, PartialEq, Eq, Structural)]
pub enum ArgKind {
    Stdin,
    Opt(usize),
    File,
    Unrecognized,
}

/// Index of the first table entry from `k` on whose short or long name is
/// spelled exactly `arg`.
pub open spec fn first_match(arg: Seq<u8>, defs: Seq<CatArgDef>, k: int) -> Option<int>
    decreases defs.len() - k,
{
    if k < 0 || k >= defs.len() {
        None
    } else if defs[k].shortname.spec_bytes() == arg || defs[k].longname.spec_bytes() == arg {
        Some(k)
    } else {
        first_match(arg, defs, k + 1)
    }
}

/// Whether the bytes spell exactly `-`.
pub open spec fn is_dash(b: Seq<u8>) -> bool {
    b.len() == 1 && b[0] == DASH
}

/// Classifies one command-line argument against the option table `defs`:
/// `-` is standard input; a spelling from the table is that option (first
/// match wins); anything else beginning with `-` is unrecognized; the rest
/// are file names.
#[verifier::loop_isolation(false)]
pub fn classify_arg(arg: &str, defs: &Vec<CatArgDef>) -> (r: ArgKind)
    ensures
        is_dash(arg.spec_bytes()) ==> r == ArgKind::Stdin,
        !is_dash(arg.spec_bytes()) ==> match first_match(arg.spec_bytes(), defs@, 0) {
            Some(k) => r == ArgKind::Opt(k as usize),
            None => r == (if arg.spec_bytes().len() > 0 && arg.spec_bytes()[0] == DASH {
                ArgKind::Unrecognized
            } else {
                ArgKind::File
            }),
        },
{
    let ab: &[u8] = arg.as_bytes();
    if ab.len() == 1 && ab[0] == DASH {
        return ArgKind::Stdin;
    }
    let mut i: usize = 0;
    while i < defs.len()
        invariant
            i <= defs@.len(),
            first_match(arg.spec_bytes(), defs@, 0) == first_match(
                arg.spec_bytes(),
                defs@,
                i as int,
            ),
        decreases defs@.len() - i,
    {
        if eq_bytes(ab, defs[i].shortname.as_bytes()) || eq_bytes(ab, defs[i].longname.as_bytes()) {
            return ArgKind::Opt(i);
        }
        i = i + 1;
    }
    if ab.len() > 0 && ab[0] == DASH {
        ArgKind::Unrecognized
    } else {
        ArgKind::File
    }
}

/// The option table of the concatenator: help, numbering, end marks,
/// squeezing, version.
pub fn options() -> (r: Vec<CatArgDef>)
    ensures
        r@.len() == 5,
        r@[0].arg is Help && r@[0].shortname@ == "-h"@ && r@[0].longname@ == "--help"@
            && r@[0].help@ == "show this message and exit"@,
        r@[1].arg is Number && r@[1].shortname@ == "-n"@ && r@[1].longname@ == "--number"@
            && r@[1].help@ == "number all output lines"@,
        r@[2].arg is Ends && r@[2].shortname@ == "-E"@ && r@[2].longname@ == "--show-ends"@
            && r@[2].help@ == "display $ at end of each line"@,
        r@[3].arg is Squeeze && r@[3].shortname@ == "-s"@ && r@[3].longname@ == "--squeeze-blank"@
            && r@[3].help@ == "squeeze consecutive empty lines into one"@,
        r@[4].arg is Version && r@[4].shortname@ == "-v"@ && r@[4].longname@ == "--version"@
            && r@[4].help@ == "output version information and exit"@,
{
    let mut r: Vec<CatArgDef> = Vec::new();
    r.push(
        CatArgDef {
            arg: CatArg::Help,
            shortname: "-h",
            longname: "--help",
            help: "show this message and exit",
        },
    );
    r.push(
        CatArgDef {
            arg: CatArg::Number,
            shortname: "-n",
            longname: "--number",
            help: "number all output lines",
        },
    );
    r.push(
        CatArgDef {
            arg: CatArg::Ends,
            shortname: "-E",
            longname: "--show-ends",
            help: "display $ at end of each line",
        },
    );
    r.push(
        CatArgDef {
            arg: CatArg::Squeeze,
            shortname: "-s",
            longname: "--squeeze-blank",
            help: "squeeze consecutive empty lines into one",
        },
    );
    r.push(
        CatArgDef {
            arg: CatArg::Version,
            shortname: "-v",
            longname: "--version",
            help: "output version information and exit",
        },
    );
    r
}

/// The distinct fatal errors when a named input cannot be opened.
#[derive(Debug, Clone, Copy, PartialEq, Eq, Structural)]
pub enum InputError {
    NotFound,
    PermissionDenied,
    IsDirectory,
    Unknown,
}

impl InputError {
    /// One-line wording of each input-access error, put after the file name
    /// in the diagnostic.
    pub fn message(&self) -> (m: &'static str)
        ensures
            m@ == match self {
                InputError::NotFound => "no such file or directory"@,
                InputError::PermissionDenied => "permission denied"@,
                InputError::IsDirectory => "is a directory"@,
                InputError::Unknown => "unknown error"@,
            },
    {
        match self {
            InputError::NotFound => "no such file or directory",
            InputError::PermissionDenied => "permission denied",
            InputError::IsDirectory => "is a directory",
            InputError::Unknown => "unknown error",
        }
    }
}

} // verus!
