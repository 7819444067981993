//! Navigation decisions for one invocation: which directory the cursor
//! starts at, where an argument moves it, and what is done with the
//! resolved target. All filesystem facts (does the target exist, is it a
//! file, its permission bits) are handed in as plain values; the
//! decisions themselves are verified.

use vstd::prelude::*;

verus! {

/// What one invocation does with its resolved target.
#[derive(Clone, Copy, Debug, PartialEq, Eq, Structural)]
pub enum Action {
    /// The target is an executable file: spawn it directly, detached.
    Execute,
    /// The target is a non-executable file: hand its URI to the open
    /// helper, detached.
    OpenWithHelper,
    /// The target is a directory: persist it and print its listing.
    ShowListing,
    /// The target exists as neither file nor directory: do nothing.
    Ignore,
}

/// Whether a permission mode has any execute bit set.
pub open spec fn executable_mode(mode: u32) -> bool {
    mode & 0o111u32 != 0u32
}

/// The action taken for a target that is a file iff `is_file`, a
/// directory iff `is_dir`, with permission bits `mode` when it is a
/// file.
pub open spec fn classify_spec(is_file: bool, is_dir: bool, mode: u32) -> Action {
    if is_file {
        if executable_mode(mode) {
            Action::Execute
        } else {
            Action::OpenWithHelper
        }
    } else if is_dir {
        Action::ShowListing
    } else {
        Action::Ignore
    }
}

/// Whether `mode` has any of the three execute permission bits set.
pub fn is_executable(mode: u32) -> (r: bool)
    ensures
        r == executable_mode(mode),
{
    mode & 0o111u32 != 0u32
}

/// Decides what this invocation does with its target: an executable
/// file is spawned, another file is handed to the open helper, a
/// directory is listed, and a dangling target is silently ignored.
pub fn classify_target(is_file: bool, is_dir: bool, mode: u32) -> (r: Action)
    ensures
        r == classify_spec(is_file, is_dir, mode),
{
    if is_file {
        if is_executable(mode) {
            Action::Execute
        } else {
            Action::OpenWithHelper
        }
    } else if is_dir {
        Action::ShowListing
    } else {
        Action::Ignore
    }
}

/// The directory an invocation starts at: the persisted last directory
/// when it still is a directory, the home directory otherwise.
pub fn choose_cursor(last_is_dir: bool, last: Vec<u8>, home: Vec<u8>) -> (r: Vec<u8>)
    ensures
        last_is_dir ==> r@ == last@,
        !last_is_dir ==> r@ == home@,
{
    if last_is_dir {
        last
    } else {
        home
    }
}

/// Where an argument moves the cursor: an absolute argument (leading
/// `/`) replaces the cursor; a relative one is appended to it, with a
/// `/` between them unless the cursor already ends in one.
pub open spec fn target_spec(cursor: Seq<u8>, arg: Seq<u8>) -> Seq<u8> {
    if arg.len() > 0 && arg[0] == 47u8 {
        arg
    } else if cursor.len() > 0 && cursor.last() == 47u8 {
        cursor + arg
    } else {
        cursor + seq![47u8] + arg
    }
}

/// Resolves the path argument against the cursor directory.
pub fn resolve_target(cursor: &Vec<u8>, arg: &Vec<u8>) -> (r: Vec<u8>)
    ensures
        r@ == target_spec(cursor@, arg@),
{
    if arg.len() > 0 && arg[0] == 47u8 {
        return crate::byteseq::bytes_clone(arg);
    }
    let mut out = crate::byteseq::bytes_clone(cursor);
    if !(cursor.len() > 0 && cursor[cursor.len() - 1] == 47u8) {
        out.push(47u8);
        proof {
            assert(out@ =~= cursor@ + seq![47u8]);
        }
    }
    crate::byteseq::bytes_extend(&mut out, arg);
    out
}

/// The prefix of a local file URI: `file://`.
pub open spec fn file_uri_prefix() -> Seq<u8> {
    seq![102u8, 105u8, 108u8, 101u8, 58u8, 47u8, 47u8]
}

/// The URI handed to the open helper for a non-executable file:
/// `file://` followed by the target path.
pub fn file_uri(path: &Vec<u8>) -> (r: Vec<u8>)
    ensures
        r@ == file_uri_prefix() + path@,
{
    let mut out: Vec<u8> = Vec::new();
    out.push(102u8);
    out.push(105u8);
    out.push(108u8);
    out.push(101u8);
    out.push(58u8);
    out.push(47u8);
    out.push(47u8);
    crate::byteseq::bytes_extend(&mut out, path);
    proof {
        assert(out@ =~= file_uri_prefix() + path@);
    }
    out
}

} // verus!
