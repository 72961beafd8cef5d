//! What a command line asks for, and carrying it out.

use vstd::prelude::*;
use vstd::string::*;
use crate::error::{unit_view, TreeError, TreeErrorView};
use crate::model::{leads_to_directory, Location, LocationView};
use crate::patterns::IGNORE_FILE;
use crate::render::LINE_BREAK;
use crate::text::{decimal, decimal_of};
use crate::{clear, cleared, print_directory_tree, printed_tree, Printed};

verus! {

/// What a command line asks for.
#[derive(Debug, PartialEq, Eq)]
pub struct Cli {
    /// The directory to work on.
    pub path: Location,
    /// Whether to delete the ignore files instead of printing the tree.
    pub clear: bool,
}

/// The line that reports how many ignore files were deleted.
pub open spec fn removal_report(removed: u64) -> Seq<char> {
    "Removed "@ + decimal_of(removed as nat) + " "@ + IGNORE_FILE@ + " file(s)"@ + LINE_BREAK@
}

/// The line that reports how many ignore files were deleted.
pub fn removal_line(removed: u64) -> (line: String)
    ensures
        line@ == removal_report(removed),
{
    let mut line = String::from_str("Removed ");
    line.append(decimal(removed).as_str());
    line.append(" ");
    line.append(IGNORE_FILE);
    line.append(" file(s)");
    line.append(LINE_BREAK);
    proof {
        assert(line@ =~= removal_report(removed));
    }
    line
}

/// Why the command line refuses a path, if it does: nothing exists there,
/// or what exists is no directory.
pub open spec fn path_refusal(path: LocationView) -> Option<TreeErrorView> {
    match path.node {
        None => Some(TreeErrorView::Other("Path '"@ + path.text + "' does not exist"@)),
        Some(node) => if leads_to_directory(node.kind) {
            None
        } else {
            Some(TreeErrorView::Other("Path '"@ + path.text + "' is not a directory"@))
        },
    }
}

/// Checks for the command line that the path exists and is a directory.
pub fn check_path(path: &Location) -> (result: Result<(), TreeError>)
    ensures
        unit_view(result) == match path_refusal(path@) {
            Some(e) => Err(e),
            None => Ok(()),
        },
{
    if !path.is_present() {
        let mut text = String::from_str("Path '");
        text.append(path.text.as_str());
        text.append("' does not exist");
        Err(TreeError::Other(text))
    } else if !path.is_dir() {
        let mut text = String::from_str("Path '");
        text.append(path.text.as_str());
        text.append("' is not a directory");
        Err(TreeError::Other(text))
    } else {
        Ok(())
    }
}

/// What [`clear_ignore_files`] leaves of the tree at `path`, what it writes
/// and how it ends. A path that is no directory is refused and nothing is
/// touched; otherwise the ignore files below it are deleted, and the report
/// is written where that went well.
pub open spec fn clearing_reported(path: LocationView) -> (
    LocationView,
    Seq<char>,
    Result<(), TreeErrorView>,
) {
    match path_refusal(path) {
        Some(e) => (path, Seq::empty(), Err(e)),
        None => match cleared(path).1 {
            Ok(removed) => (cleared(path).0, removal_report(removed), Ok(())),
            Err(e) => (cleared(path).0, Seq::empty(), Err(e)),
        },
    }
}

/// Deletes every ignore file below `path` and writes a line onto `out`
/// that says how many there were.
pub fn clear_ignore_files(path: &mut Location, out: &mut String) -> (result: Result<
    (),
    TreeError,
>)
    ensures
        final(path)@ == clearing_reported(old(path)@).0,
        final(out)@ == old(out)@ + clearing_reported(old(path)@).1,
        unit_view(result) == clearing_reported(old(path)@).2,
{
    match check_path(path) {
        Err(e) => {
            proof {
                assert(out@ + Seq::<char>::empty() =~= out@);
            }
            return Err(e);
        },
        Ok(()) => {},
    }
    match clear(path) {
        Ok(removed) => {
            out.append(removal_line(removed).as_str());
            Ok(())
        },
        Err(e) => {
            proof {
                assert(out@ + Seq::<char>::empty() =~= out@);
            }
            Err(e)
        },
    }
}

/// What printing for the command line leaves of the tree at `path`, what
/// it writes and how it ends: a path that is no directory is refused before
/// anything is written, and the tree is printed otherwise.
pub open spec fn printing_run(path: LocationView) -> Printed {
    match path_refusal(path) {
        Some(e) => Printed { root: path, text: Seq::empty(), result: Err(e) },
        None => printed_tree(path, true),
    }
}

/// Carries out what the command line asks for: deletes the ignore files
/// below its path and reports their number, or prints the tree.
pub fn run_app(cli: &mut Cli, out: &mut String) -> (result: Result<(), TreeError>)
    ensures
        final(cli).clear == old(cli).clear,
        old(cli).clear ==> {
            &&& final(cli).path@ == clearing_reported(old(cli).path@).0
            &&& final(out)@ == old(out)@ + clearing_reported(old(cli).path@).1
            &&& unit_view(result) == clearing_reported(old(cli).path@).2
        },
        !old(cli).clear ==> {
            &&& final(cli).path@ == printing_run(old(cli).path@).root
            &&& final(out)@ == old(out)@ + printing_run(old(cli).path@).text
            &&& unit_view(result) == printing_run(old(cli).path@).result
        },
{
    if cli.clear {
        return clear_ignore_files(&mut cli.path, out);
    }
    match check_path(&cli.path) {
        Err(e) => {
            proof {
                assert(out@ + Seq::<char>::empty() =~= out@);
            }
            Err(e)
        },
        Ok(()) => print_directory_tree(&mut cli.path, out),
    }
}

} // verus!
