//! Removing the ignore files below a directory.
//!
//! A sweep walks a directory the way a recursive listing does: each entry in
//! turn, and the inside of a directory right after the directory itself. It
//! deletes the regular files that bear the name of the ignore file and
//! nothing else. A directory that cannot be listed is passed over; a file
//! that cannot be deleted ends the sweep.

use vstd::prelude::*;
use vstd::string::*;
use crate::error::{count_view, TreeError, TreeErrorView};
use crate::model::{child_path, join_path, lemma_view_children, views, Kind, Node, NodeView};
use crate::patterns::IGNORE_FILE;
use crate::text::same_text;

verus! {

/// Whether a sweep deletes the entry: a regular file with the ignore file's
/// exact name.
pub open spec fn is_ignore_file(name: Seq<char>, kind: Kind) -> bool {
    kind == Kind::File && name == IGNORE_FILE@
}

/// Whether a sweep deletes an entry of this name and kind.
pub fn wants_removed(name: &str, kind: Kind) -> (wanted: bool)
    ensures
        wanted == is_ignore_file(name@, kind),
{
    match kind {
        Kind::File => same_text(name, IGNORE_FILE),
        _ => false,
    }
}

/// The error that ends a sweep when the file at `path` cannot be deleted.
pub open spec fn removal_error(path: Seq<char>) -> TreeErrorView {
    TreeErrorView::Io("Failed to remove "@ + path)
}

/// The error that ends a sweep when the file at `path` cannot be deleted.
pub fn removal_failed(path: &str) -> (error: TreeError)
    ensures
        error@ == removal_error(path@),
{
    let mut text = String::from_str("Failed to remove ");
    text.append(path);
    TreeError::Io(text)
}

/// The line that warns of a part of the tree that could not be listed.
pub open spec fn skip_warning(cause: Seq<char>) -> Seq<char> {
    "Warning: Error accessing path: "@ + cause
}

/// The line that warns of a part of the tree that could not be listed. The
/// sweep goes on with the next entry.
pub fn skipped_warning(cause: &str) -> (line: String)
    ensures
        line@ == skip_warning(cause@),
{
    let mut line = String::from_str("Warning: Error accessing path: ");
    line.append(cause);
    line
}

/// A count kept within `u64`: it stays at the largest value once reached.
pub open spec fn capped(n: int) -> u64 {
    if n >= u64::MAX {
        u64::MAX
    } else if n <= 0 {
        0
    } else {
        n as u64
    }
}

/// The count after one more file was deleted.
pub fn count_removal(removed: u64) -> (next: u64)
    ensures
        next == capped(removed + 1),
{
    removed.saturating_add(1)
}

/// What a sweep makes of a list of entries.
pub ghost struct Swept {
    /// The entries that are left.
    pub nodes: Seq<NodeView>,
    /// How many files were deleted.
    pub removed: nat,
    /// The path of the file whose deletion failed and ended the sweep.
    pub blocked: Option<Seq<char>>,
}

/// The sweep of the entries `nodes[from..]` of the directory at `dir`.
pub open spec fn swept_from(nodes: Seq<NodeView>, from: int, dir: Seq<char>) -> Swept
    decreases nodes, nodes.len() - from,
{
    if from < 0 || from >= nodes.len() {
        Swept { nodes: Seq::empty(), removed: 0, blocked: None }
    } else {
        let head = nodes[from];
        if is_ignore_file(head.name, head.kind) {
            if head.locked {
                Swept {
                    nodes: nodes.skip(from),
                    removed: 0,
                    blocked: Some(child_path(dir, head.name)),
                }
            } else {
                let rest = swept_from(nodes, from + 1, dir);
                Swept { removed: rest.removed + 1, ..rest }
            }
        } else if head.kind == Kind::Directory && !head.locked {
            let inner = swept_from(head.children, 0, child_path(dir, head.name));
            let kept = NodeView { children: inner.nodes, ..head };
            if inner.blocked is Some {
                Swept {
                    nodes: seq![kept] + nodes.skip(from + 1),
                    removed: inner.removed,
                    blocked: inner.blocked,
                }
            } else {
                let rest = swept_from(nodes, from + 1, dir);
                Swept {
                    nodes: seq![kept] + rest.nodes,
                    removed: inner.removed + rest.removed,
                    blocked: rest.blocked,
                }
            }
        } else {
            let rest = swept_from(nodes, from + 1, dir);
            Swept { nodes: seq![head] + rest.nodes, ..rest }
        }
    }
}

/// The sweep of all entries of the directory at `dir`.
pub open spec fn swept(nodes: Seq<NodeView>, dir: Seq<char>) -> Swept {
    swept_from(nodes, 0, dir)
}

/// The error, if any, that a sweep ends with.
pub open spec fn sweep_failure(s: Swept) -> Option<TreeErrorView> {
    match s.blocked {
        Some(path) => Some(removal_error(path)),
        None => None,
    }
}

/// What [`sweep_entries`] hands back.
pub struct SweepOutcome {
    /// The entries that are left.
    pub nodes: Vec<Node>,
    /// The count of deleted files, carried on from the count given.
    pub removed: u64,
    /// The error that ended the sweep, if one did.
    pub failure: Option<TreeError>,
}

impl SweepOutcome {
    /// The view of the failure.
    pub open spec fn failure_view(&self) -> Option<TreeErrorView> {
        match self.failure {
            Some(e) => Some(e@),
            None => None,
        }
    }
}

proof fn lemma_views_push(nodes: Seq<Node>, node: Node)
    ensures
        views(nodes.push(node)) == views(nodes).push(node@),
{
    assert(views(nodes.push(node)) =~= views(nodes).push(node@));
}

/// Sweeps the entries of the directory at `dir`, counting on from `count`.
pub fn sweep_entries(nodes: Vec<Node>, dir: &str, count: u64) -> (out: SweepOutcome)
    ensures
        views(out.nodes@) == swept(views(nodes@), dir@).nodes,
        out.removed == capped(count + swept(views(nodes@), dir@).removed),
        out.failure_view() == sweep_failure(swept(views(nodes@), dir@)),
    decreases nodes,
{
    let ghost given = nodes@;
    let ghost all = views(nodes@);
    let ghost whole = swept(all, dir@);
    let mut kept: Vec<Node> = Vec::new();
    let mut removed = count;
    let mut failure: Option<TreeError> = None;
    proof {
        assert(views(kept@) + swept_from(all, 0, dir@).nodes =~= whole.nodes);
    }
    for node in it: nodes
        invariant
            it.seq() == given,
            all == views(given),
            given == nodes@,
            whole == swept(all, dir@),
            failure is None ==> {
                let rest = swept_from(all, it.index() as int, dir@);
                &&& whole.nodes == views(kept@) + rest.nodes
                &&& capped(count + whole.removed) == capped(removed + rest.removed)
                &&& whole.blocked == rest.blocked
            },
            failure is Some ==> {
                &&& whole.nodes == views(kept@) + all.skip(it.index() as int)
                &&& capped(count + whole.removed) == removed
                &&& whole.blocked is Some
                &&& failure.unwrap()@ == removal_error(whole.blocked.unwrap())
            },
    {
        let ghost i = it.index() as int;
        let ghost before = views(kept@);
        proof {
            assert(node == given[i]);
            assert(all[i] == node@);
            lemma_view_children(node);
            lemma_views_push(kept@, node);
            assert(all.skip(i) =~= seq![all[i]] + all.skip(i + 1));
        }
        if failure.is_some() {
            kept.push(node);
            proof {
                assert(before + all.skip(i) =~= before.push(all[i]) + all.skip(i + 1));
            }
        } else if wants_removed(node.name.as_str(), node.kind) {
            if node.locked {
                let path = join_path(dir, node.name.as_str());
                failure = Some(removal_failed(path.as_str()));
                kept.push(node);
                proof {
                    assert(before + all.skip(i) =~= before.push(all[i]) + all.skip(i + 1));
                }
            } else {
                removed = count_removal(removed);
            }
        } else if node.kind == Kind::Directory && !node.locked {
            let path = join_path(dir, node.name.as_str());
            let Node { name, kind, content, children, vcs_ignored, locked } = node;
            proof {
                assert(decreases_to!(nodes => nodes[i]));
            }
            let inner = sweep_entries(children, path.as_str(), removed);
            let fresh = Node {
                name,
                kind,
                content,
                children: inner.nodes,
                vcs_ignored,
                locked,
            };
            proof {
                lemma_view_children(fresh);
                lemma_views_push(kept@, fresh);
                let below = swept_from(all[i].children, 0, child_path(dir@, all[i].name));
                let mended = NodeView { children: below.nodes, ..all[i] };
                assert(fresh@ == mended);
                if below.blocked is Some {
                    assert(before + (seq![mended] + all.skip(i + 1)) =~= before.push(mended)
                        + all.skip(i + 1));
                } else {
                    let rest = swept_from(all, i + 1, dir@);
                    assert(before + (seq![mended] + rest.nodes) =~= before.push(mended)
                        + rest.nodes);
                }
            }
            removed = inner.removed;
            failure = inner.failure;
            kept.push(fresh);
        } else {
            kept.push(node);
            proof {
                let rest = swept_from(all, i + 1, dir@);
                assert(before + (seq![all[i]] + rest.nodes) =~= before.push(all[i]) + rest.nodes);
            }
        }
    }
    proof {
        let n = given.len() as int;
        assert(swept_from(all, n, dir@).nodes =~= Seq::<NodeView>::empty());
        assert(all.skip(n) =~= Seq::<NodeView>::empty());
        assert(views(kept@) + Seq::<NodeView>::empty() =~= views(kept@));
    }
    SweepOutcome { nodes: kept, removed, failure }
}

/// How many ignore files lie among `nodes[from..]` and below them.
pub open spec fn ignore_files_from(nodes: Seq<NodeView>, from: int) -> nat
    decreases nodes, nodes.len() - from,
{
    if from < 0 || from >= nodes.len() {
        0
    } else {
        let head = nodes[from];
        let here = if is_ignore_file(head.name, head.kind) {
            1
        } else if head.kind == Kind::Directory {
            ignore_files_from(head.children, 0)
        } else {
            0
        };
        here + ignore_files_from(nodes, from + 1)
    }
}

/// How many ignore files lie among `nodes` and below them.
pub open spec fn ignore_files(nodes: Seq<NodeView>) -> nat {
    ignore_files_from(nodes, 0)
}

/// Whether a sweep gets at every ignore file among `nodes[from..]` and
/// below them: none of them refuses to be deleted, and none lies in a
/// directory that refuses to be listed.
pub open spec fn within_reach_from(nodes: Seq<NodeView>, from: int) -> bool
    decreases nodes, nodes.len() - from,
{
    if from < 0 || from >= nodes.len() {
        true
    } else {
        let head = nodes[from];
        &&& is_ignore_file(head.name, head.kind) ==> !head.locked
        &&& head.kind == Kind::Directory ==> if head.locked {
            ignore_files_from(head.children, 0) == 0
        } else {
            within_reach_from(head.children, 0)
        }
        &&& within_reach_from(nodes, from + 1)
    }
}

/// Whether a sweep gets at every ignore file among `nodes` and below them.
pub open spec fn within_reach(nodes: Seq<NodeView>) -> bool {
    within_reach_from(nodes, 0)
}

/// What a sweep leaves of an entry that it does not delete: a directory
/// that can be listed comes out swept inside, anything else as it was.
pub open spec fn swept_inside(node: NodeView, dir: Seq<char>) -> NodeView {
    if node.kind == Kind::Directory && !node.locked {
        NodeView { children: swept(node.children, child_path(dir, node.name)).nodes, ..node }
    } else {
        node
    }
}

proof fn lemma_swept_shift(nodes: Seq<NodeView>, from: int, dir: Seq<char>)
    requires
        0 <= from <= nodes.len(),
    ensures
        swept_from(nodes, from, dir) == swept_from(nodes.skip(from), 0, dir),
    decreases nodes.len() - from,
{
    let tail = nodes.skip(from);
    if from < nodes.len() {
        assert(tail[0] == nodes[from]);
        assert(tail.skip(0) =~= tail);
        assert(tail.skip(1) =~= nodes.skip(from + 1));
        lemma_swept_shift(nodes, from + 1, dir);
        lemma_swept_shift(tail, 1, dir);
    }
}

proof fn lemma_ignore_files_shift(nodes: Seq<NodeView>, from: int)
    requires
        0 <= from <= nodes.len(),
    ensures
        ignore_files_from(nodes, from) == ignore_files_from(nodes.skip(from), 0),
    decreases nodes.len() - from,
{
    let tail = nodes.skip(from);
    if from < nodes.len() {
        assert(tail[0] == nodes[from]);
        assert(tail.skip(1) =~= nodes.skip(from + 1));
        lemma_ignore_files_shift(nodes, from + 1);
        lemma_ignore_files_shift(tail, 1);
    }
}

/// A sweep that gets at every ignore file deletes them all: it is not
/// blocked, it counts as many deletions as there were ignore files, and it
/// leaves none behind.
pub proof fn lemma_sweep_removes_every_ignore_file(
    nodes: Seq<NodeView>,
    from: int,
    dir: Seq<char>,
)
    requires
        0 <= from <= nodes.len(),
        within_reach_from(nodes, from),
    ensures
        swept_from(nodes, from, dir).blocked is None,
        swept_from(nodes, from, dir).removed == ignore_files_from(nodes, from),
        ignore_files(swept_from(nodes, from, dir).nodes) == 0,
    decreases nodes, nodes.len() - from,
{
    if from < nodes.len() {
        let head = nodes[from];
        let rest = swept_from(nodes, from + 1, dir);
        lemma_sweep_removes_every_ignore_file(nodes, from + 1, dir);
        if is_ignore_file(head.name, head.kind) {
        } else {
            let first = if head.kind == Kind::Directory && !head.locked {
                let below = child_path(dir, head.name);
                lemma_sweep_removes_every_ignore_file(head.children, 0, below);
                NodeView { children: swept_from(head.children, 0, below).nodes, ..head }
            } else {
                head
            };
            let out = seq![first] + rest.nodes;
            assert(swept_from(nodes, from, dir).nodes == out);
            assert(out.skip(1) =~= rest.nodes);
            lemma_ignore_files_shift(out, 1);
        }
    }
}

/// After a sweep that was not blocked, a second sweep finds nothing to
/// delete and changes nothing.
pub proof fn lemma_second_sweep_finds_nothing(
    nodes: Seq<NodeView>,
    from: int,
    dir: Seq<char>,
)
    requires
        0 <= from <= nodes.len(),
        swept_from(nodes, from, dir).blocked is None,
    ensures
        swept(swept_from(nodes, from, dir).nodes, dir) == (Swept {
            nodes: swept_from(nodes, from, dir).nodes,
            removed: 0,
            blocked: None,
        }),
    decreases nodes, nodes.len() - from,
{
    let first = swept_from(nodes, from, dir);
    if from < nodes.len() {
        let head = nodes[from];
        let rest = swept_from(nodes, from + 1, dir);
        if is_ignore_file(head.name, head.kind) {
            lemma_second_sweep_finds_nothing(nodes, from + 1, dir);
        } else {
            let below = child_path(dir, head.name);
            let kept = if head.kind == Kind::Directory && !head.locked {
                lemma_second_sweep_finds_nothing(head.children, 0, below);
                NodeView { children: swept_from(head.children, 0, below).nodes, ..head }
            } else {
                head
            };
            lemma_second_sweep_finds_nothing(nodes, from + 1, dir);
            let out = seq![kept] + rest.nodes;
            assert(first.nodes == out);
            assert(out.skip(1) =~= rest.nodes);
            lemma_swept_shift(out, 1, dir);
            assert(swept(out, dir).nodes =~= out);
        }
    } else {
        assert(swept(first.nodes, dir).nodes =~= first.nodes);
    }
}

/// A sweep that was not blocked deletes nothing but ignore files: what it
/// leaves is the list it was given without the ignore files, each entry in
/// its place and swept inside.
pub proof fn lemma_sweep_deletes_nothing_else(nodes: Seq<NodeView>, from: int, dir: Seq<char>)
    requires
        0 <= from <= nodes.len(),
        swept_from(nodes, from, dir).blocked is None,
    ensures
        swept_from(nodes, from, dir).nodes == nodes.skip(from).filter(
            |n: NodeView| !is_ignore_file(n.name, n.kind),
        ).map_values(|n: NodeView| swept_inside(n, dir)),
    decreases nodes.len() - from,
{
    let stays = |n: NodeView| !is_ignore_file(n.name, n.kind);
    let inside = |n: NodeView| swept_inside(n, dir);
    let tail = nodes.skip(from);
    if from < nodes.len() {
        let head = nodes[from];
        let rest = nodes.skip(from + 1);
        lemma_sweep_deletes_nothing_else(nodes, from + 1, dir);
        assert(tail =~= seq![head] + rest);
        Seq::filter_distributes_over_add(seq![head], rest, stays);
        let single = seq![head];
        reveal_with_fuel(Seq::filter, 2);
        assert(single.drop_last() =~= Seq::<NodeView>::empty());
        assert(single.last() == head);
        if stays(head) {
            assert(single.filter(stays) =~= single);
            assert((single + rest.filter(stays)).map_values(inside) =~= seq![inside(head)]
                + rest.filter(stays).map_values(inside));
        } else {
            assert(single.filter(stays) =~= Seq::<NodeView>::empty());
            assert(Seq::<NodeView>::empty() + rest.filter(stays) =~= rest.filter(stays));
        }
    } else {
        assert(tail =~= Seq::<NodeView>::empty());
        assert(tail.filter(stays).map_values(inside) =~= Seq::<NodeView>::empty());
    }
}

/// The entries `nodes[from..]` without the ignore files among them and
/// below them.
pub open spec fn others_from(nodes: Seq<NodeView>, from: int) -> Seq<NodeView>
    decreases nodes, nodes.len() - from,
{
    if from < 0 || from >= nodes.len() {
        Seq::empty()
    } else {
        let head = nodes[from];
        let rest = others_from(nodes, from + 1);
        if is_ignore_file(head.name, head.kind) {
            rest
        } else if head.kind == Kind::Directory {
            seq![NodeView { children: others_from(head.children, 0), ..head }] + rest
        } else {
            seq![head] + rest
        }
    }
}

/// A list of entries without the ignore files among them and below them.
pub open spec fn others(nodes: Seq<NodeView>) -> Seq<NodeView> {
    others_from(nodes, 0)
}

proof fn lemma_others_shift(nodes: Seq<NodeView>, from: int)
    requires
        0 <= from <= nodes.len(),
    ensures
        others_from(nodes, from) == others_from(nodes.skip(from), 0),
    decreases nodes.len() - from,
{
    let tail = nodes.skip(from);
    if from < nodes.len() {
        assert(tail[0] == nodes[from]);
        assert(tail.skip(1) =~= nodes.skip(from + 1));
        lemma_others_shift(nodes, from + 1);
        lemma_others_shift(tail, 1);
    }
}

/// A sweep touches nothing but ignore files, however it ends: what it
/// leaves and what it found are the same once the ignore files are taken
/// out of both.
pub proof fn lemma_sweep_touches_only_ignore_files(nodes: Seq<NodeView>, from: int, dir: Seq<char>)
    requires
        0 <= from <= nodes.len(),
    ensures
        others(swept_from(nodes, from, dir).nodes) == others_from(nodes, from),
    decreases nodes, nodes.len() - from,
{
    let out = swept_from(nodes, from, dir).nodes;
    if from < nodes.len() {
        let head = nodes[from];
        let rest = swept_from(nodes, from + 1, dir);
        lemma_sweep_touches_only_ignore_files(nodes, from + 1, dir);
        lemma_others_shift(nodes, from);
        lemma_others_shift(nodes, from + 1);
        if is_ignore_file(head.name, head.kind) {
        } else {
            let below = child_path(dir, head.name);
            let listed = head.kind == Kind::Directory && !head.locked;
            let inner = swept_from(head.children, 0, below);
            let kept = if listed {
                NodeView { children: inner.nodes, ..head }
            } else {
                head
            };
            if head.kind == Kind::Directory {
                lemma_sweep_touches_only_ignore_files(head.children, 0, below);
            }
            let behind = if listed && inner.blocked is Some {
                nodes.skip(from + 1)
            } else {
                rest.nodes
            };
            assert(out =~= seq![kept] + behind);
            assert(out.skip(1) =~= behind);
            lemma_others_shift(out, 1);
        }
    }
}

/// A sweep changes nothing where there is no ignore file.
pub proof fn lemma_sweep_of_a_clean_list(nodes: Seq<NodeView>, from: int, dir: Seq<char>)
    requires
        0 <= from <= nodes.len(),
        ignore_files_from(nodes, from) == 0,
    ensures
        swept_from(nodes, from, dir) == (Swept {
            nodes: nodes.skip(from),
            removed: 0,
            blocked: None,
        }),
    decreases nodes, nodes.len() - from,
{
    if from < nodes.len() {
        let head = nodes[from];
        lemma_sweep_of_a_clean_list(nodes, from + 1, dir);
        if head.kind == Kind::Directory {
            lemma_sweep_of_a_clean_list(head.children, 0, child_path(dir, head.name));
            assert(head.children.skip(0) =~= head.children);
        }
        assert(seq![head] + nodes.skip(from + 1) =~= nodes.skip(from));
    } else {
        assert(nodes.skip(from) =~= Seq::<NodeView>::empty());
    }
}

/// Where a list without ignore files is followed by one ignore file, a
/// sweep deletes that file and nothing else.
pub proof fn lemma_sweep_of_a_clean_list_and_one_ignore_file(
    nodes: Seq<NodeView>,
    from: int,
    dir: Seq<char>,
    file: NodeView,
)
    requires
        0 <= from <= nodes.len(),
        ignore_files_from(nodes, from) == 0,
        is_ignore_file(file.name, file.kind),
        !file.locked,
    ensures
        swept_from(nodes.push(file), from, dir) == (Swept {
            nodes: nodes.skip(from),
            removed: 1,
            blocked: None,
        }),
    decreases nodes.len() - from,
{
    let all = nodes.push(file);
    if from < nodes.len() {
        let head = nodes[from];
        assert(all[from] == head);
        lemma_sweep_of_a_clean_list_and_one_ignore_file(nodes, from + 1, dir, file);
        if head.kind == Kind::Directory {
            lemma_sweep_of_a_clean_list(head.children, 0, child_path(dir, head.name));
            assert(head.children.skip(0) =~= head.children);
        }
        assert(seq![head] + nodes.skip(from + 1) =~= nodes.skip(from));
    } else {
        assert(all[from] == file);
        assert(nodes.skip(from) =~= Seq::<NodeView>::empty());
        assert(swept_from(all, from + 1, dir).nodes =~= Seq::<NodeView>::empty());
    }
}

/// What clearing the directory `dir` at `path` leaves of it, and what it
/// reports: the number of files deleted, or the error that ended the sweep.
pub open spec fn cleared_directory(dir: NodeView, path: Seq<char>) -> (NodeView, Result<
    u64,
    TreeErrorView,
>) {
    if dir.locked {
        (dir, Ok(0))
    } else {
        let s = swept(dir.children, path);
        (
            NodeView { children: s.nodes, ..dir },
            match s.blocked {
                Some(file) => Err(removal_error(file)),
                None => Ok(capped(s.removed as int)),
            },
        )
    }
}

/// Deletes every ignore file below the directory `dir`, which lies at
/// `path`, and returns how many were deleted.
///
/// A directory that cannot be listed is left as it is. The first file that
/// cannot be deleted ends the sweep with an error; what was deleted before
/// stays deleted.
pub fn clear_ignore_files_count(dir: &mut Node, path: &str) -> (result: Result<u64, TreeError>)
    ensures
        final(dir)@ == cleared_directory(old(dir)@, path@).0,
        count_view(result) == cleared_directory(old(dir)@, path@).1,
{
    proof {
        lemma_view_children(*dir);
    }
    if dir.locked {
        return Ok(0);
    }
    let mut children: Vec<Node> = Vec::new();
    core::mem::swap(&mut dir.children, &mut children);
    let outcome = sweep_entries(children, path, 0);
    dir.children = outcome.nodes;
    proof {
        lemma_view_children(*dir);
    }
    match outcome.failure {
        Some(error) => Err(error),
        None => Ok(outcome.removed),
    }
}

} // verus!
