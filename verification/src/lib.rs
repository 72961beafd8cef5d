//! Directory trees drawn as text.
//!
//! [`print`] draws the entries below a directory as a tree of box-drawing
//! characters, leaving out what version control ignores and what the
//! directory's own ignore file names. [`clear`] deletes the ignore files
//! again.
//!
//! Both work on a tree held in memory (see [`model`]), so that what they
//! write, what they change and how they fail can be stated and proved. A
//! program that works on the disk reads one directory at a time and lets
//! the same functions decide: [`patterns::settle_ignore_file`] about the
//! ignore file, [`render::level_rows`] about the lines of a directory, and
//! [`sweep::wants_removed`] about what to delete.
//!
//! The modules: [`text`] compares and cuts text, [`patterns`] reads ignore
//! files, [`arrange`] orders the entries of a directory, [`render`] draws
//! them, [`sweep`] deletes ignore files, [`cli`] carries out what a command
//! line asks for, and [`release`] raises the version of a package.

use vstd::prelude::*;
use vstd::string::*;

pub mod arrange;
pub mod cli;
pub mod error;
pub mod model;
pub mod patterns;
pub mod release;
pub mod render;
pub mod sweep;
pub mod text;

pub use crate::error::TreeError;
use crate::arrange::arranged_upto;
use crate::error::{count_view, unit_view, TreeErrorView};
use crate::model::{
    leads_to_directory, lemma_position_of_push, lemma_view_children, listable, position_of,
    Location, LocationView, NodeView,
};
use crate::patterns::{
    create_default_ignore_file, default_file_created, default_ignore_file, ignore_file_of,
    lemma_default_patterns_spare_the_ignore_file, patterns_of, patterns_read,
    read_ignore_patterns, DEFAULT_IGNORE, IGNORE_FILE,
};
use crate::render::{
    drawing_result, drawn, drawn_from, entry_of, listing_of, print_directory_tree_recursive_short,
    rows_of, CORNER, LINE_BREAK,
};
use crate::sweep::{
    capped, clear_ignore_files_count, cleared_directory, ignore_files, is_ignore_file,
    lemma_second_sweep_finds_nothing, lemma_sweep_deletes_nothing_else,
    lemma_sweep_of_a_clean_list_and_one_ignore_file, lemma_sweep_removes_every_ignore_file,
    lemma_sweep_touches_only_ignore_files, others, swept_inside, within_reach,
};
use crate::text::texts;

verus! {

/// Why a path cannot serve as the root of an operation, if it cannot.
pub open spec fn root_error(root: LocationView) -> Option<TreeErrorView> {
    match root.node {
        None => Some(TreeErrorView::PathMissing(root.text)),
        Some(node) => if leads_to_directory(node.kind) {
            None
        } else {
            Some(TreeErrorView::NotADirectory(root.text))
        },
    }
}

/// Checks that the path exists and is a directory.
pub fn validate_root(root: &Location) -> (result: Result<(), TreeError>)
    ensures
        unit_view(result) == match root_error(root@) {
            Some(e) => Err(e),
            None => Ok(()),
        },
{
    match &root.node {
        None => Err(TreeError::PathMissing(root.text.clone())),
        Some(node) => {
            proof {
                lemma_view_children(*node);
            }
            if node.kind.is_dir() {
                Ok(())
            } else {
                Err(TreeError::NotADirectory(root.text.clone()))
            }
        },
    }
}

/// What an operation printed, what it left of the tree, and how it ended.
pub ghost struct Printed {
    /// The location afterwards.
    pub root: LocationView,
    /// The text that was written.
    pub text: Seq<char>,
    /// How the operation ended.
    pub result: Result<(), TreeErrorView>,
}

/// What printing the tree at `root` writes and leaves behind.
///
/// The first line is the path. Then the directory is seeded with the
/// default ignore file, which changes nothing where it has one; the
/// patterns are read from the file once, and the entries are drawn with
/// those patterns at every level.
pub open spec fn printed_tree(root: LocationView, show_files: bool) -> Printed {
    let header = root.text + LINE_BREAK@;
    match default_file_created(root) {
        Err(e) => Printed { root, text: header, result: Err(e) },
        Ok(ready) => match patterns_read(ready) {
            Err(e) => Printed { root: ready, text: header, result: Err(e) },
            Ok(patterns) => {
                let drawing = drawn(
                    ready.node->0,
                    ready.text,
                    Seq::empty(),
                    patterns,
                    show_files,
                );
                Printed {
                    root: ready,
                    text: header + drawing.text,
                    result: drawing_result(drawing),
                }
            },
        },
    }
}

/// What [`print_with_options`] writes and leaves behind: nothing but the
/// error where the root is no directory, the printed tree where it is.
pub open spec fn printed(root: LocationView, show_files: bool) -> Printed {
    match root_error(root) {
        Some(e) => Printed { root, text: Seq::empty(), result: Err(e) },
        None => printed_tree(root, show_files),
    }
}

/// Prints the path of `root` and the tree below it onto `writer`, without
/// checking first what the path holds.
///
/// With `show_files` unset only directories are drawn.
pub fn print_directory_tree_to_writer(
    root: &mut Location,
    writer: &mut String,
    show_files: bool,
) -> (result: Result<(), TreeError>)
    ensures
        final(root)@ == printed_tree(old(root)@, show_files).root,
        final(writer)@ == old(writer)@ + printed_tree(old(root)@, show_files).text,
        unit_view(result) == printed_tree(old(root)@, show_files).result,
{
    let ghost start = writer@;
    writer.append(root.text.as_str());
    writer.append(LINE_BREAK);
    proof {
        assert(writer@ =~= start + (root.text@ + LINE_BREAK@));
    }
    match create_default_ignore_file(root) {
        Err(e) => {
            return Err(e);
        },
        Ok(()) => {},
    }
    let patterns = match read_ignore_patterns(root) {
        Err(e) => {
            return Err(e);
        },
        Ok(patterns) => patterns,
    };
    let ghost header = root.text@ + LINE_BREAK@;
    match &root.node {
        Some(dir) => {
            let ghost drawing = drawn(dir@, root.text@, Seq::empty(), texts(patterns@), show_files);
            proof {
                reveal_strlit("");
                assert(""@ =~= Seq::<char>::empty());
                assert(start + (header + drawing.text) =~= (start + header) + drawing.text);
            }
            print_directory_tree_recursive_short(
                dir,
                root.text.as_str(),
                "",
                writer,
                patterns.as_slice(),
                show_files,
            )
        },
        None => Ok(()),
    }
}

/// Prints the path of `path` and the tree below it onto `writer`, without
/// checking first what the path holds.
pub fn print_directory_tree(path: &mut Location, writer: &mut String) -> (result: Result<
    (),
    TreeError,
>)
    ensures
        final(path)@ == printed_tree(old(path)@, true).root,
        final(writer)@ == old(writer)@ + printed_tree(old(path)@, true).text,
        unit_view(result) == printed_tree(old(path)@, true).result,
{
    print_directory_tree_to_writer(path, writer, true)
}

/// Prints the tree below `root` onto `writer`: the path on the first line,
/// then one line for every entry that is shown.
///
/// A root that is missing or no directory is refused before anything is
/// written. A directory without an ignore file gets the default one, and
/// its patterns apply to this very printing.
pub fn print(root: &mut Location, writer: &mut String) -> (result: Result<(), TreeError>)
    ensures
        final(root)@ == printed(old(root)@, true).root,
        final(writer)@ == old(writer)@ + printed(old(root)@, true).text,
        unit_view(result) == printed(old(root)@, true).result,
{
    print_with_options(root, writer, true)
}

/// Prints the tree below `root` onto `writer`; with `show_files` unset only
/// the directories are drawn.
pub fn print_with_options(root: &mut Location, writer: &mut String, show_files: bool) -> (result:
    Result<(), TreeError>)
    ensures
        final(root)@ == printed(old(root)@, show_files).root,
        final(writer)@ == old(writer)@ + printed(old(root)@, show_files).text,
        unit_view(result) == printed(old(root)@, show_files).result,
{
    match validate_root(root) {
        Err(e) => {
            proof {
                assert(writer@ + Seq::<char>::empty() =~= writer@);
            }
            Err(e)
        },
        Ok(()) => print_directory_tree_to_writer(root, writer, show_files),
    }
}

/// What [`clear`] leaves of the tree at `root`, and what it returns.
pub open spec fn cleared(root: LocationView) -> (LocationView, Result<u64, TreeErrorView>) {
    match root_error(root) {
        Some(e) => (root, Err(e)),
        None => {
            let (dir, result) = cleared_directory(root.node.unwrap(), root.text);
            (LocationView { node: Some(dir), ..root }, result)
        },
    }
}

/// Deletes every ignore file below `root` and returns how many were deleted.
///
/// Only regular files with the exact name of the ignore file are deleted;
/// directories, symbolic links and files of any other name stay. A
/// directory that cannot be listed is passed over. A file that cannot be
/// deleted ends the operation with [`TreeError::Io`].
pub fn clear(root: &mut Location) -> (result: Result<u64, TreeError>)
    ensures
        final(root)@ == cleared(old(root)@).0,
        count_view(result) == cleared(old(root)@).1,
{
    match validate_root(root) {
        Err(e) => Err(e),
        Ok(()) => {
            match &mut root.node {
                Some(dir) => clear_ignore_files_count(dir, root.text.as_str()),
                None => Ok(0),
            }
        },
    }
}

/// Printing the tree of a directory that has no ignore file gives it one:
/// the default file, behind the entries that were there, which stay as
/// they were.
pub proof fn lemma_print_creates_the_ignore_file(root: LocationView, show_files: bool)
    requires
        root.node is Some,
        listable(root.node->0),
        ignore_file_of(root) is None,
    ensures
        printed(root, show_files).root.text == root.text,
        printed(root, show_files).root.node is Some,
        printed(root, show_files).root.node->0 == (NodeView {
            children: root.node->0.children.push(default_ignore_file()),
            ..root.node->0
        }),
        ignore_file_of(printed(root, show_files).root) == Some(default_ignore_file()),
{
    let dir = root.node->0;
    lemma_position_of_push(dir.children, default_ignore_file(), IGNORE_FILE@);
}

/// Printing the tree of a directory that has an ignore file leaves the
/// whole tree as it was, whatever the file holds.
pub proof fn lemma_print_keeps_the_ignore_file(root: LocationView, show_files: bool)
    requires
        ignore_file_of(root) is Some,
    ensures
        printed(root, show_files).root == root,
{
}

/// The location with the text of its ignore file changed to `content`, as
/// an edit by hand changes it.
pub open spec fn ignore_file_edited(root: LocationView, content: Seq<char>) -> LocationView {
    match ignore_file_of(root) {
        Some(file) => {
            let dir = root.node->0;
            let at = position_of(dir.children, IGNORE_FILE@);
            LocationView {
                node: Some(
                    NodeView {
                        children: dir.children.update(at, NodeView { content, ..file }),
                        ..dir
                    },
                ),
                ..root
            }
        },
        None => root,
    }
}

/// The ignore file is written once and never overwritten: after the
/// printing that created it, it may be edited to hold anything, and a
/// second printing leaves the edited file and all else as it finds them.
pub proof fn lemma_print_never_overwrites(
    root: LocationView,
    show_files: bool,
    content: Seq<char>,
)
    requires
        root.node is Some,
        listable(root.node->0),
        ignore_file_of(root) is None,
    ensures
        ignore_file_of(printed(root, show_files).root) == Some(default_ignore_file()),
        ignore_file_of(ignore_file_edited(printed(root, show_files).root, content)) == Some(
            NodeView { content, ..default_ignore_file() },
        ),
        printed(
            ignore_file_edited(printed(root, show_files).root, content),
            show_files,
        ).root == ignore_file_edited(printed(root, show_files).root, content),
{
    lemma_print_creates_the_ignore_file(root, show_files);
    lemma_position_of_push(root.node->0.children, default_ignore_file(), IGNORE_FILE@);
    let after = printed(root, show_files).root;
    let dir = after.node->0;
    let at = position_of(dir.children, IGNORE_FILE@);
    assert(at == root.node->0.children.len());
    lemma_position_of_update(
        dir.children,
        at,
        NodeView { content, ..dir.children[at] },
        IGNORE_FILE@,
    );
}

/// Changing an entry without changing its name moves no entry's position.
proof fn lemma_position_of_update(
    nodes: Seq<NodeView>,
    at: int,
    node: NodeView,
    name: Seq<char>,
)
    requires
        0 <= at < nodes.len(),
        node.name == nodes[at].name,
    ensures
        position_of(nodes.update(at, node), name) == position_of(nodes, name),
    decreases nodes.len(),
{
    if at > 0 {
        assert(nodes.update(at, node).drop_first() =~= nodes.drop_first().update(at - 1, node));
        lemma_position_of_update(nodes.drop_first(), at - 1, node, name);
    } else {
        assert(nodes.update(at, node).drop_first() =~= nodes.drop_first());
    }
}

/// Printing is repeatable: a second printing writes what the first wrote,
/// ends as the first ended, and changes nothing.
pub proof fn lemma_print_twice(root: LocationView, show_files: bool)
    ensures
        printed(printed(root, show_files).root, show_files) == printed(root, show_files),
{
    if root_error(root) is None && ignore_file_of(root) is None && listable(root.node->0) {
        lemma_print_creates_the_ignore_file(root, show_files);
        lemma_position_of_push(root.node->0.children, default_ignore_file(), IGNORE_FILE@);
    }
}

/// Printing the tree of an empty directory writes two lines: the path, and
/// on a corner the ignore file that the printing has just written, which
/// none of its own patterns hides.
pub proof fn lemma_print_of_an_empty_directory(root: LocationView)
    requires
        root.node is Some,
        listable(root.node->0),
        root.node->0.children.len() == 0,
    ensures
        printed(root, true).text == root.text + LINE_BREAK@ + CORNER@ + IGNORE_FILE@ + LINE_BREAK@,
        printed(root, true).result == Ok::<(), TreeErrorView>(()),
{
    let dir = root.node->0;
    let file = default_ignore_file();
    let patterns = patterns_of(DEFAULT_IGNORE@);
    lemma_default_patterns_spare_the_ignore_file();
    lemma_print_creates_the_ignore_file(root, true);
    let ready = printed(root, true).root;
    let nodes = ready.node->0.children;
    assert(nodes =~= seq![file]);
    let listing = listing_of(nodes);
    assert(listing[0] == entry_of(file));
    assert(arranged_upto(listing, patterns, true, 0) =~= Seq::<int>::empty());
    assert(arranged_upto(listing, patterns, true, 1) =~= seq![0int]);
    let rows = rows_of(Seq::<char>::empty(), listing, patterns, true);
    assert(rows.len() == 1);
    let line = rows[0].line + LINE_BREAK@;
    assert(rows[0].line =~= CORNER@ + IGNORE_FILE@);
    let after = drawn_from(nodes, rows, 1, ready.text, patterns, true);
    assert(after.text =~= Seq::<char>::empty());
    let drawing = drawn_from(nodes, rows, 0, ready.text, patterns, true);
    assert(drawing.text =~= line);
    assert(root.text + LINE_BREAK@ + line =~= root.text + LINE_BREAK@ + CORNER@ + IGNORE_FILE@
        + LINE_BREAK@);
}

/// Clearing a directory deletes all the ignore files below it and returns
/// their number, and clearing it again returns zero. This holds wherever
/// every ignore file is within reach: the root can be listed, none of the
/// files refuses to be deleted, and none lies in a directory that refuses
/// to be listed.
pub proof fn lemma_clear_returns_the_number_of_ignore_files(root: LocationView)
    requires
        root.node is Some,
        listable(root.node->0),
        within_reach(root.node->0.children),
    ensures
        cleared(root).1 == Ok::<u64, TreeErrorView>(
            capped(ignore_files(root.node->0.children) as int),
        ),
        cleared(root).0.node is Some,
        ignore_files(cleared(root).0.node->0.children) == 0,
        cleared(cleared(root).0).1 == Ok::<u64, TreeErrorView>(0),
{
    let dir = root.node->0;
    lemma_sweep_removes_every_ignore_file(dir.children, 0, root.text);
    lemma_second_sweep_finds_nothing(dir.children, 0, root.text);
}

/// After a clearing that succeeded, a second clearing returns zero and
/// changes nothing.
pub proof fn lemma_clear_twice(root: LocationView)
    requires
        cleared(root).1 is Ok,
    ensures
        cleared(cleared(root).0) == (cleared(root).0, Ok::<u64, TreeErrorView>(0)),
{
    let dir = root.node->0;
    if !dir.locked {
        lemma_second_sweep_finds_nothing(dir.children, 0, root.text);
    }
}

/// Clearing touches nothing but ignore files, however it ends: the path
/// and the root stay, and what lies below the root afterwards and what lay
/// there before are the same once the ignore files are taken out of both.
pub proof fn lemma_clear_touches_only_ignore_files(root: LocationView)
    ensures
        cleared(root).0.text == root.text,
        cleared(root).0.node is Some == root.node is Some,
        root.node is Some ==> {
            let before = root.node->0;
            let after = cleared(root).0.node->0;
            &&& after == (NodeView { children: after.children, ..before })
            &&& others(after.children) == others(before.children)
        },
{
    if root_error(root) is None && !root.node->0.locked {
        lemma_sweep_touches_only_ignore_files(root.node->0.children, 0, root.text);
    }
}

/// A clearing that succeeded deleted nothing but ignore files: the root
/// holds the entries it held, without the ignore files, each swept inside.
pub proof fn lemma_clear_deletes_nothing_else(root: LocationView)
    requires
        cleared(root).1 is Ok,
        !root.node->0.locked,
    ensures
        cleared(root).0.node->0.children == root.node->0.children.filter(
            |n: NodeView| !is_ignore_file(n.name, n.kind),
        ).map_values(|n: NodeView| swept_inside(n, root.text)),
{
    let dir = root.node->0;
    lemma_sweep_deletes_nothing_else(dir.children, 0, root.text);
    assert(dir.children.skip(0) =~= dir.children);
}

/// Printing the tree of a fresh directory and then clearing it: the
/// printing leaves an ignore file, the clearing deletes exactly that one
/// file and leaves the directory as it was before the printing. A fresh
/// directory is one that can be listed, has no entry with the name of the
/// ignore file, and has no ignore file anywhere below.
pub proof fn lemma_print_then_clear(root: LocationView, show_files: bool)
    requires
        root.node is Some,
        listable(root.node->0),
        ignore_file_of(root) is None,
        ignore_files(root.node->0.children) == 0,
    ensures
        ignore_file_of(printed(root, show_files).root) is Some,
        cleared(printed(root, show_files).root) == (root, Ok::<u64, TreeErrorView>(1)),
        ignore_file_of(cleared(printed(root, show_files).root).0) is None,
{
    let dir = root.node->0;
    lemma_print_creates_the_ignore_file(root, show_files);
    lemma_sweep_of_a_clean_list_and_one_ignore_file(
        dir.children,
        0,
        root.text,
        default_ignore_file(),
    );
    assert(dir.children.skip(0) =~= dir.children);
}

} // verus!
