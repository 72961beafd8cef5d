//! Drawing the entries of a directory as lines of a tree.
//!
//! Every entry that is shown takes one line: the prefix handed down from
//! the levels above, a connector, the name, and a slash behind the name of
//! a directory. The last entry of a level hangs on a corner and leaves the
//! column below it blank; every other entry hangs on a branch and leaves a
//! bar for the entries that follow.

use vstd::prelude::*;
use vstd::string::*;
use crate::arrange::{
    arrange, arranged, arranged_upto, comes_before, entry_views, inserted, lemma_arranged_upto,
    positions, visible, Entry, EntryView,
};
use crate::error::{unit_view, TreeError, TreeErrorView};
use crate::model::{
    child_path, join_path, leads_to_directory, lemma_view_children, listable, views, Node,
    NodeView,
};
use crate::text::texts;

verus! {

/// Connector of an entry that has others below it.
pub const BRANCH: &'static str = "├── ";

/// Connector of the last entry of a level.
pub const CORNER: &'static str = "└── ";

/// What the entries below a branch are indented with.
pub const BAR: &'static str = "│   ";

/// What the entries below a corner are indented with.
pub const BLANK: &'static str = "    ";

/// What is drawn behind the name of a directory.
pub const DIRECTORY_MARK: &'static str = "/";

/// What ends a line.
pub const LINE_BREAK: &'static str = "\n";

/// The glyphs are what they look like: each connector and each indentation
/// takes four columns, a line ends in a line feed, and a directory is marked
/// by a slash.
pub proof fn lemma_glyphs()
    ensures
        BRANCH@ == seq!['\u{251c}', '\u{2500}', '\u{2500}', ' '],
        CORNER@ == seq!['\u{2514}', '\u{2500}', '\u{2500}', ' '],
        BAR@ == seq!['\u{2502}', ' ', ' ', ' '],
        BLANK@ == seq![' ', ' ', ' ', ' '],
        DIRECTORY_MARK@ == seq!['/'],
        LINE_BREAK@ == seq!['\n'],
{
    reveal_strlit("├── ");
    reveal_strlit("└── ");
    reveal_strlit("│   ");
    reveal_strlit("    ");
    reveal_strlit("/");
    reveal_strlit("\n");
    assert(BRANCH@ =~= seq!['\u{251c}', '\u{2500}', '\u{2500}', ' ']);
    assert(CORNER@ =~= seq!['\u{2514}', '\u{2500}', '\u{2500}', ' ']);
    assert(BAR@ =~= seq!['\u{2502}', ' ', ' ', ' ']);
    assert(BLANK@ =~= seq![' ', ' ', ' ', ' ']);
    assert(DIRECTORY_MARK@ =~= seq!['/']);
    assert(LINE_BREAK@ =~= seq!['\n']);
}

/// One line of a drawing, and how to go on below it.
#[derive(Debug, Clone, PartialEq, Eq)]
pub struct Row {
    /// Position of the entry in the listing that the row was made from.
    pub index: usize,
    /// The line, without its line break.
    pub line: String,
    /// For a directory, the prefix of the lines for its entries.
    pub descend: Option<String>,
}

/// A [`Row`] as a mathematical value.
pub ghost struct RowView {
    pub index: int,
    pub line: Seq<char>,
    pub descend: Option<Seq<char>>,
}

impl View for Row {
    type V = RowView;

    open spec fn view(&self) -> RowView {
        RowView {
            index: self.index as int,
            line: self.line@,
            descend: match self.descend {
                Some(p) => Some(p@),
                None => None,
            },
        }
    }
}

/// The mathematical values of a list of rows.
pub open spec fn row_views(rows: Seq<Row>) -> Seq<RowView> {
    Seq::new(rows.len(), |k: int| rows[k]@)
}

/// The line of an entry.
pub open spec fn line_of(prefix: Seq<char>, entry: EntryView, last: bool) -> Seq<char> {
    prefix + (if last {
        CORNER@
    } else {
        BRANCH@
    }) + entry.name + (if entry.is_dir {
        DIRECTORY_MARK@
    } else {
        Seq::empty()
    })
}

/// The prefix of the lines below an entry.
pub open spec fn prefix_below(prefix: Seq<char>, last: bool) -> Seq<char> {
    prefix + (if last {
        BLANK@
    } else {
        BAR@
    })
}

/// The row of the entry at position `index`.
pub open spec fn row_of(prefix: Seq<char>, entry: EntryView, index: int, last: bool) -> RowView {
    RowView {
        index,
        line: line_of(prefix, entry, last),
        descend: if entry.is_dir {
            Some(prefix_below(prefix, last))
        } else {
            None
        },
    }
}

/// The rows of a directory's listing: one for each entry that is shown, in
/// drawing order.
pub open spec fn rows_of(
    prefix: Seq<char>,
    listing: Seq<EntryView>,
    patterns: Seq<Seq<char>>,
    show_files: bool,
) -> Seq<RowView> {
    let order = arranged(listing, patterns, show_files);
    Seq::new(
        order.len(),
        |k: int| row_of(prefix, listing[order[k]], order[k], k == order.len() - 1),
    )
}

/// The line of an entry.
pub fn entry_line(prefix: &str, entry: &Entry, last: bool) -> (line: String)
    ensures
        line@ == line_of(prefix@, entry@, last),
{
    let mut line = String::from_str(prefix);
    if last {
        line.append(CORNER);
    } else {
        line.append(BRANCH);
    }
    line.append(entry.name.as_str());
    if entry.is_dir {
        line.append(DIRECTORY_MARK);
    }
    proof {
        assert(line@ =~= line_of(prefix@, entry@, last));
    }
    line
}

/// The prefix of the lines below an entry.
pub fn child_prefix(prefix: &str, last: bool) -> (below: String)
    ensures
        below@ == prefix_below(prefix@, last),
{
    let mut below = String::from_str(prefix);
    if last {
        below.append(BLANK);
    } else {
        below.append(BAR);
    }
    below
}

/// The rows for the listing of one directory.
///
/// `prefix` is what the lines of this level begin with: empty for the
/// entries of the root, and for a directory further down the `descend` of
/// its own row.
pub fn level_rows(
    prefix: &str,
    listing: &[Entry],
    ignore_patterns: &[String],
    show_files: bool,
) -> (rows: Vec<Row>)
    ensures
        row_views(rows@) == rows_of(
            prefix@,
            entry_views(listing@),
            texts(ignore_patterns@),
            show_files,
        ),
        forall|k: int| 0 <= k < rows@.len() ==> rows@[k].index < listing@.len(),
{
    let order = arrange(listing, ignore_patterns, show_files);
    let ghost entries = entry_views(listing@);
    let ghost wanted = rows_of(prefix@, entries, texts(ignore_patterns@), show_files);
    let mut rows: Vec<Row> = Vec::new();
    let mut k: usize = 0;
    while k < order.len()
        invariant
            k <= order.len(),
            entries == entry_views(listing@),
            positions(order@) == arranged(entries, texts(ignore_patterns@), show_files),
            forall|j: int| 0 <= j < order@.len() ==> order@[j] < listing@.len(),
            wanted == rows_of(prefix@, entries, texts(ignore_patterns@), show_files),
            rows@.len() == k,
            forall|j: int| 0 <= j < k ==> rows@[j]@ == wanted[j],
            forall|j: int| 0 <= j < k ==> rows@[j].index < listing@.len(),
        decreases order.len() - k,
    {
        let index = order[k];
        let entry = &listing[index];
        let last = k + 1 == order.len();
        let line = entry_line(prefix, entry, last);
        let descend = if entry.is_dir {
            Some(child_prefix(prefix, last))
        } else {
            None
        };
        proof {
            assert(positions(order@)[k as int] == index as int);
            assert(entries[index as int] == entry@);
        }
        rows.push(Row { index, line, descend });
        k += 1;
    }
    proof {
        assert(positions(order@).len() == order@.len());
        assert(row_views(rows@) =~= wanted);
    }
    rows
}

/// What a listing reports of a node.
pub open spec fn entry_of(node: NodeView) -> EntryView {
    EntryView {
        name: node.name,
        is_dir: leads_to_directory(node.kind),
        vcs_ignored: node.vcs_ignored,
    }
}

/// The listing of a directory with the entries `nodes`.
pub open spec fn listing_of(nodes: Seq<NodeView>) -> Seq<EntryView> {
    Seq::new(nodes.len(), |i: int| entry_of(nodes[i]))
}

/// Lists a directory with the entries `nodes`.
pub fn list_entries(nodes: &Vec<Node>) -> (listing: Vec<Entry>)
    ensures
        entry_views(listing@) == listing_of(views(nodes@)),
{
    let mut listing: Vec<Entry> = Vec::new();
    let mut i: usize = 0;
    while i < nodes.len()
        invariant
            i <= nodes.len(),
            listing@.len() == i,
            forall|j: int| 0 <= j < i ==> listing@[j]@ == entry_of(nodes@[j]@),
        decreases nodes.len() - i,
    {
        let node = &nodes[i];
        proof {
            lemma_view_children(*node);
        }
        listing.push(
            Entry {
                name: node.name.clone(),
                is_dir: node.kind.is_dir(),
                vcs_ignored: node.vcs_ignored,
            },
        );
        i += 1;
    }
    proof {
        assert(entry_views(listing@) =~= listing_of(views(nodes@)));
    }
    listing
}

/// What drawing produced: the text, and where it broke off.
pub ghost struct Drawing {
    /// The lines that were written, each with its line break.
    pub text: Seq<char>,
    /// The path of the directory that could not be listed.
    pub failed: Option<Seq<char>>,
}

/// The drawing of the rows `rows[k..]` of the directory at `dir` whose
/// entries are `nodes`.
///
/// Each row gives its line; below the line of a directory comes the drawing
/// of that directory. A directory that cannot be listed ends the drawing
/// after its own line.
pub open spec fn drawn_from(
    nodes: Seq<NodeView>,
    rows: Seq<RowView>,
    k: int,
    dir: Seq<char>,
    patterns: Seq<Seq<char>>,
    show_files: bool,
) -> Drawing
    decreases nodes, rows.len() - k,
{
    if k < 0 || k >= rows.len() {
        Drawing { text: Seq::empty(), failed: None }
    } else {
        let row = rows[k];
        let line = row.line + LINE_BREAK@;
        if row.descend is Some && 0 <= row.index < nodes.len() {
            let node = nodes[row.index];
            let path = child_path(dir, node.name);
            if !listable(node) {
                Drawing { text: line, failed: Some(path) }
            } else {
                let below = rows_of(
                    row.descend->0,
                    listing_of(node.children),
                    patterns,
                    show_files,
                );
                let inner = drawn_from(node.children, below, 0, path, patterns, show_files);
                if inner.failed is Some {
                    Drawing { text: line + inner.text, failed: inner.failed }
                } else {
                    let rest = drawn_from(nodes, rows, k + 1, dir, patterns, show_files);
                    Drawing { text: line + inner.text + rest.text, failed: rest.failed }
                }
            }
        } else {
            let rest = drawn_from(nodes, rows, k + 1, dir, patterns, show_files);
            Drawing { text: line + rest.text, failed: rest.failed }
        }
    }
}

/// The drawing of what lies below the directory `dir` at `path`, each line
/// beginning with `prefix`.
pub open spec fn drawn(
    dir: NodeView,
    path: Seq<char>,
    prefix: Seq<char>,
    patterns: Seq<Seq<char>>,
    show_files: bool,
) -> Drawing {
    if !listable(dir) {
        Drawing { text: Seq::empty(), failed: Some(path) }
    } else {
        drawn_from(
            dir.children,
            rows_of(prefix, listing_of(dir.children), patterns, show_files),
            0,
            path,
            patterns,
            show_files,
        )
    }
}

/// The error for a directory that cannot be listed.
pub open spec fn read_error(path: Seq<char>) -> TreeErrorView {
    TreeErrorView::Io("Failed to read directory: "@ + path)
}

/// The error for a directory that cannot be listed.
pub fn read_failed(path: &str) -> (error: TreeError)
    ensures
        error@ == read_error(path@),
{
    let mut text = String::from_str("Failed to read directory: ");
    text.append(path);
    TreeError::Io(text)
}

/// How a drawing ends: well, or with the error of the directory that could
/// not be listed.
pub open spec fn drawing_result(drawing: Drawing) -> Result<(), TreeErrorView> {
    match drawing.failed {
        Some(path) => Err(read_error(path)),
        None => Ok(()),
    }
}

/// Draws what lies below the directory `dir`, which lies at `path`, onto
/// `handle`, each line beginning with `prefix`.
///
/// The lines are written as the entries are reached. A directory that
/// cannot be listed ends the drawing with [`TreeError::Io`]; the lines
/// written before stay written.
pub fn print_directory_tree_recursive_short(
    dir: &Node,
    path: &str,
    prefix: &str,
    handle: &mut String,
    ignore_patterns: &[String],
    show_files: bool,
) -> (result: Result<(), TreeError>)
    ensures
        final(handle)@ == old(handle)@ + drawn(
            dir@,
            path@,
            prefix@,
            texts(ignore_patterns@),
            show_files,
        ).text,
        unit_view(result) == drawing_result(
            drawn(dir@, path@, prefix@, texts(ignore_patterns@), show_files),
        ),
    decreases dir,
{
    let ghost patterns = texts(ignore_patterns@);
    let ghost start = handle@;
    proof {
        lemma_view_children(*dir);
    }
    if !dir.kind.is_dir() || dir.locked {
        proof {
            assert(start + Seq::<char>::empty() =~= start);
        }
        return Err(read_failed(path));
    }
    let listing = list_entries(&dir.children);
    let rows = level_rows(prefix, listing.as_slice(), ignore_patterns, show_files);
    let ghost nodes = views(dir.children@);
    let ghost wanted = row_views(rows@);
    let ghost whole = drawn_from(nodes, wanted, 0, path@, patterns, show_files);
    let mut k: usize = 0;
    while k < rows.len()
        invariant
            k <= rows.len(),
            nodes == views(dir.children@),
            dir@.children == nodes,
            listable(dir@),
            start == old(handle)@,
            wanted == row_views(rows@),
            wanted == rows_of(prefix@, listing_of(nodes), patterns, show_files),
            patterns == texts(ignore_patterns@),
            whole == drawn_from(nodes, wanted, 0, path@, patterns, show_files),
            forall|j: int| 0 <= j < rows@.len() ==> rows@[j].index < dir.children@.len(),
            start + whole.text == handle@ + drawn_from(
                nodes,
                wanted,
                k as int,
                path@,
                patterns,
                show_files,
            ).text,
            whole.failed == drawn_from(nodes, wanted, k as int, path@, patterns, show_files).failed,
        decreases rows.len() - k,
    {
        let row = &rows[k];
        let ghost before = handle@;
        let ghost here = drawn_from(nodes, wanted, k as int, path@, patterns, show_files);
        let ghost rest = drawn_from(nodes, wanted, k + 1, path@, patterns, show_files);
        let ghost line = row.line@ + LINE_BREAK@;
        handle.append(row.line.as_str());
        handle.append(LINE_BREAK);
        proof {
            assert(wanted[k as int] == row@);
            assert(handle@ =~= before + line);
        }
        match &row.descend {
            Some(below) => {
                let child = &dir.children[row.index];
                let child_path = join_path(path, child.name.as_str());
                proof {
                    lemma_view_children(*child);
                    assert(nodes[row.index as int] == child@);
                    assert(decreases_to!(dir => dir.children[row.index as int]));
                }
                let ghost inner = drawn(child@, child_path@, below@, patterns, show_files);
                match print_directory_tree_recursive_short(
                    child,
                    child_path.as_str(),
                    below.as_str(),
                    handle,
                    ignore_patterns,
                    show_files,
                ) {
                    Err(error) => {
                        proof {
                            assert(here.text =~= line + inner.text);
                            assert(before + (line + inner.text) =~= (before + line) + inner.text);
                        }
                        return Err(error);
                    },
                    Ok(()) => {
                        proof {
                            assert(here.text =~= line + inner.text + rest.text);
                            assert(before + (line + inner.text + rest.text) =~= ((before + line)
                                + inner.text) + rest.text);
                        }
                    },
                }
            },
            None => {
                proof {
                    assert(here.text =~= line + rest.text);
                    assert(before + (line + rest.text) =~= (before + line) + rest.text);
                }
            },
        }
        k += 1;
    }
    proof {
        let end = drawn_from(nodes, wanted, k as int, path@, patterns, show_files);
        assert(handle@ + end.text =~= handle@);
    }
    Ok(())
}

/// The positions below `n` of the entries that are shown, ascending.
pub open spec fn shown_upto(
    listing: Seq<EntryView>,
    patterns: Seq<Seq<char>>,
    show_files: bool,
    n: int,
) -> Seq<int>
    decreases n,
{
    if n <= 0 {
        Seq::empty()
    } else {
        let earlier = shown_upto(listing, patterns, show_files, n - 1);
        if visible(listing[n - 1], patterns, show_files) {
            earlier.push(n - 1)
        } else {
            earlier
        }
    }
}

/// The first `n` of `nodes` with every entry cut out that is not shown, at
/// this level and at every level below.
pub open spec fn cut_upto(
    nodes: Seq<NodeView>,
    patterns: Seq<Seq<char>>,
    show_files: bool,
    n: int,
) -> Seq<NodeView>
    decreases nodes, n,
{
    if n <= 0 || n > nodes.len() {
        Seq::empty()
    } else {
        let earlier = cut_upto(nodes, patterns, show_files, n - 1);
        let node = nodes[n - 1];
        if visible(entry_of(node), patterns, show_files) {
            earlier.push(
                NodeView {
                    children: cut_upto(
                        node.children,
                        patterns,
                        show_files,
                        node.children.len() as int,
                    ),
                    ..node
                },
            )
        } else {
            earlier
        }
    }
}

/// A list of entries with every entry cut out that is not shown, at this
/// level and at every level below.
pub open spec fn without_hidden(
    nodes: Seq<NodeView>,
    patterns: Seq<Seq<char>>,
    show_files: bool,
) -> Seq<NodeView> {
    cut_upto(nodes, patterns, show_files, nodes.len() as int)
}

/// A node with every entry below it cut out that is not shown.
pub open spec fn cut_below(node: NodeView, patterns: Seq<Seq<char>>, show_files: bool) -> NodeView {
    NodeView { children: without_hidden(node.children, patterns, show_files), ..node }
}

/// The positions in `order`, each looked up in `through`.
spec fn looked_up(through: Seq<int>, order: Seq<int>) -> Seq<int> {
    Seq::new(order.len(), |k: int| through[order[k]])
}

proof fn lemma_shown_upto(
    listing: Seq<EntryView>,
    patterns: Seq<Seq<char>>,
    show_files: bool,
    n: int,
)
    requires
        0 <= n <= listing.len(),
    ensures
        ({
            let shown = shown_upto(listing, patterns, show_files, n);
            &&& forall|j: int| 0 <= j < shown.len() ==> 0 <= #[trigger] shown[j] < n
            &&& forall|j: int|
                0 <= j < shown.len() ==> visible(listing[#[trigger] shown[j]], patterns, show_files)
            &&& forall|i: int, j: int|
                0 <= i < j < shown.len() ==> #[trigger] shown[i] < #[trigger] shown[j]
        }),
    decreases n,
{
    let now = shown_upto(listing, patterns, show_files, n);
    if n > 0 {
        let earlier = shown_upto(listing, patterns, show_files, n - 1);
        lemma_shown_upto(listing, patterns, show_files, n - 1);
        assert forall|j: int| 0 <= j < now.len() implies 0 <= #[trigger] now[j] < n && visible(
            listing[now[j]],
            patterns,
            show_files,
        ) by {
            if j < earlier.len() {
                assert(now[j] == earlier[j]);
            }
        }
        assert forall|i: int, j: int| 0 <= i < j < now.len() implies #[trigger] now[i]
            < #[trigger] now[j] by {
            assert(now[i] == earlier[i]);
            if j < earlier.len() {
                assert(now[j] == earlier[j]);
            }
        }
    }
}

proof fn lemma_shown_upto_begins(
    listing: Seq<EntryView>,
    patterns: Seq<Seq<char>>,
    show_files: bool,
    n: int,
    m: int,
)
    requires
        0 <= n <= m <= listing.len(),
    ensures
        ({
            let fewer = shown_upto(listing, patterns, show_files, n);
            let more = shown_upto(listing, patterns, show_files, m);
            &&& fewer.len() <= more.len()
            &&& forall|j: int| 0 <= j < fewer.len() ==> #[trigger] more[j] == fewer[j]
        }),
    decreases m,
{
    if n < m {
        let shorter = shown_upto(listing, patterns, show_files, n);
        let earlier = shown_upto(listing, patterns, show_files, m - 1);
        let now = shown_upto(listing, patterns, show_files, m);
        lemma_shown_upto_begins(listing, patterns, show_files, n, m - 1);
        assert forall|j: int| 0 <= j < shorter.len() implies #[trigger] now[j] == shorter[j] by {
            assert(now[j] == earlier[j]);
        }
    }
}

proof fn lemma_cut_upto(nodes: Seq<NodeView>, patterns: Seq<Seq<char>>, show_files: bool, n: int)
    requires
        0 <= n <= nodes.len(),
    ensures
        cut_upto(nodes, patterns, show_files, n).len() == shown_upto(
            listing_of(nodes),
            patterns,
            show_files,
            n,
        ).len(),
        forall|j: int|
            0 <= j < cut_upto(nodes, patterns, show_files, n).len() ==> #[trigger] cut_upto(
                nodes,
                patterns,
                show_files,
                n,
            )[j] == cut_below(
                nodes[shown_upto(listing_of(nodes), patterns, show_files, n)[j]],
                patterns,
                show_files,
            ),
    decreases n,
{
    if n > 0 {
        lemma_cut_upto(nodes, patterns, show_files, n - 1);
    }
}

/// Whether two listings order their entries alike, where position `j` of
/// the second stands for position `through[j]` of the first.
spec fn same_order(first: Seq<EntryView>, second: Seq<EntryView>, through: Seq<int>) -> bool {
    forall|i: int, j: int|
        0 <= i < through.len() && 0 <= j < through.len() ==> comes_before(
            first,
            #[trigger] through[i],
            #[trigger] through[j],
        ) == comes_before(second, i, j)
}

proof fn lemma_inserted_looked_up(
    first: Seq<EntryView>,
    second: Seq<EntryView>,
    through: Seq<int>,
    order: Seq<int>,
    x: int,
)
    requires
        same_order(first, second, through),
        0 <= x < through.len(),
        forall|k: int| 0 <= k < order.len() ==> 0 <= #[trigger] order[k] < through.len(),
    ensures
        inserted(first, looked_up(through, order), through[x]) == looked_up(
            through,
            inserted(second, order, x),
        ),
    decreases order.len(),
{
    let mapped = looked_up(through, order);
    if order.len() == 0 {
        assert(looked_up(through, seq![x]) =~= seq![through[x]]);
    } else {
        assert(mapped[0] == through[order[0]]);
        assert(comes_before(first, through[x], through[order[0]]) == comes_before(
            second,
            x,
            order[0],
        ));
        if comes_before(second, x, order[0]) {
            assert(looked_up(through, seq![x] + order) =~= seq![through[x]] + mapped);
        } else {
            let tail = order.drop_first();
            assert forall|k: int| 0 <= k < tail.len() implies 0 <= #[trigger] tail[k]
                < through.len() by {
                assert(tail[k] == order[k + 1]);
            }
            lemma_inserted_looked_up(first, second, through, tail, x);
            assert(mapped.drop_first() =~= looked_up(through, tail));
            assert(looked_up(through, seq![order[0]] + inserted(second, tail, x)) =~= seq![
                through[order[0]],
            ] + looked_up(through, inserted(second, tail, x)));
        }
    }
}

proof fn lemma_arranged_looked_up(
    first: Seq<EntryView>,
    second: Seq<EntryView>,
    patterns: Seq<Seq<char>>,
    show_files: bool,
    n: int,
)
    requires
        0 <= n <= first.len(),
        second.len() == shown_upto(first, patterns, show_files, first.len() as int).len(),
        forall|j: int|
            0 <= j < second.len() ==> #[trigger] second[j] == first[shown_upto(
                first,
                patterns,
                show_files,
                first.len() as int,
            )[j]],
    ensures
        arranged_upto(first, patterns, show_files, n) == looked_up(
            shown_upto(first, patterns, show_files, first.len() as int),
            arranged_upto(
                second,
                patterns,
                show_files,
                shown_upto(first, patterns, show_files, n).len() as int,
            ),
        ),
    decreases n,
{
    let through = shown_upto(first, patterns, show_files, first.len() as int);
    let count = shown_upto(first, patterns, show_files, n).len() as int;
    lemma_shown_upto_begins(first, patterns, show_files, n, first.len() as int);
    if n > 0 {
        let fewer = shown_upto(first, patterns, show_files, n - 1).len() as int;
        lemma_arranged_looked_up(first, second, patterns, show_files, n - 1);
        if visible(first[n - 1], patterns, show_files) {
            let earlier = arranged_upto(second, patterns, show_files, fewer);
            assert(count == fewer + 1);
            assert(through[fewer] == n - 1) by {
                let now = shown_upto(first, patterns, show_files, n);
                assert(now[fewer] == n - 1);
                assert(through[fewer] == now[fewer]);
            }
            assert(second[fewer] == first[n - 1]);
            lemma_arranged_upto(second, patterns, show_files, fewer);
            assert forall|k: int| 0 <= k < earlier.len() implies 0 <= #[trigger] earlier[k]
                < through.len() by {
                assert(earlier.contains(earlier[k]));
            }
            lemma_same_order(first, second, patterns, show_files);
            lemma_inserted_looked_up(first, second, through, earlier, fewer);
        }
    } else {
        assert(looked_up(through, Seq::<int>::empty()) =~= Seq::<int>::empty());
    }
}

proof fn lemma_same_order(
    first: Seq<EntryView>,
    second: Seq<EntryView>,
    patterns: Seq<Seq<char>>,
    show_files: bool,
)
    requires
        second.len() == shown_upto(first, patterns, show_files, first.len() as int).len(),
        forall|j: int|
            0 <= j < second.len() ==> #[trigger] second[j] == first[shown_upto(
                first,
                patterns,
                show_files,
                first.len() as int,
            )[j]],
    ensures
        same_order(first, second, shown_upto(first, patterns, show_files, first.len() as int)),
{
    let through = shown_upto(first, patterns, show_files, first.len() as int);
    lemma_shown_upto(first, patterns, show_files, first.len() as int);
    assert forall|i: int, j: int|
        0 <= i < through.len() && 0 <= j < through.len() implies comes_before(
        first,
        #[trigger] through[i],
        #[trigger] through[j],
    ) == comes_before(second, i, j) by {
        assert(second[i] == first[through[i]]);
        assert(second[j] == first[through[j]]);
        if i < j {
            assert(through[i] < through[j]);
        } else if j < i {
            assert(through[j] < through[i]);
        }
    }
}

proof fn lemma_rows_of_cut(
    nodes: Seq<NodeView>,
    prefix: Seq<char>,
    patterns: Seq<Seq<char>>,
    show_files: bool,
)
    ensures
        ({
            let rows = rows_of(prefix, listing_of(nodes), patterns, show_files);
            let cut = without_hidden(nodes, patterns, show_files);
            let cut_rows = rows_of(prefix, listing_of(cut), patterns, show_files);
            &&& rows.len() == cut_rows.len()
            &&& forall|k: int|
                0 <= k < rows.len() ==> {
                    &&& (#[trigger] rows[k]).line == cut_rows[k].line
                    &&& rows[k].descend == cut_rows[k].descend
                    &&& 0 <= rows[k].index < nodes.len()
                    &&& 0 <= cut_rows[k].index < cut.len()
                    &&& cut[cut_rows[k].index] == cut_below(
                        nodes[rows[k].index],
                        patterns,
                        show_files,
                    )
                }
        }),
{
    let first = listing_of(nodes);
    let cut = without_hidden(nodes, patterns, show_files);
    let second = listing_of(cut);
    let through = shown_upto(first, patterns, show_files, first.len() as int);
    let rows = rows_of(prefix, first, patterns, show_files);
    let cut_rows = rows_of(prefix, second, patterns, show_files);
    let order = arranged(first, patterns, show_files);
    let cut_order = arranged(second, patterns, show_files);
    lemma_cut_upto(nodes, patterns, show_files, nodes.len() as int);
    lemma_shown_upto(first, patterns, show_files, first.len() as int);
    assert forall|j: int| 0 <= j < second.len() implies #[trigger] second[j]
        == first[through[j]] by {
        assert(cut[j] == cut_below(nodes[through[j]], patterns, show_files));
    }
    lemma_arranged_looked_up(first, second, patterns, show_files, first.len() as int);
    lemma_arranged_upto(second, patterns, show_files, second.len() as int);
    assert(order == looked_up(through, cut_order));
    assert forall|k: int| 0 <= k < rows.len() implies {
        &&& (#[trigger] rows[k]).line == cut_rows[k].line
        &&& rows[k].descend == cut_rows[k].descend
        &&& 0 <= rows[k].index < nodes.len()
        &&& 0 <= cut_rows[k].index < cut.len()
        &&& cut[cut_rows[k].index] == cut_below(nodes[rows[k].index], patterns, show_files)
    } by {
        assert(cut_order.contains(cut_order[k]));
        assert(order[k] == through[cut_order[k]]);
        assert(second[cut_order[k]] == first[order[k]]);
    }
}

/// What is hidden leaves no trace: the drawing of a list of entries is the
/// drawing of the list with every entry cut out that version control
/// ignores or the patterns hide, together with all that lies below such an
/// entry, at every level.
pub proof fn lemma_hidden_entries_leave_no_trace(
    nodes: Seq<NodeView>,
    prefix: Seq<char>,
    k: int,
    dir: Seq<char>,
    patterns: Seq<Seq<char>>,
    show_files: bool,
)
    requires
        0 <= k,
    ensures
        drawn_from(
            nodes,
            rows_of(prefix, listing_of(nodes), patterns, show_files),
            k,
            dir,
            patterns,
            show_files,
        ) == drawn_from(
            without_hidden(nodes, patterns, show_files),
            rows_of(
                prefix,
                listing_of(without_hidden(nodes, patterns, show_files)),
                patterns,
                show_files,
            ),
            k,
            dir,
            patterns,
            show_files,
        ),
    decreases nodes, rows_of(prefix, listing_of(nodes), patterns, show_files).len() - k,
{
    let rows = rows_of(prefix, listing_of(nodes), patterns, show_files);
    let cut = without_hidden(nodes, patterns, show_files);
    let cut_rows = rows_of(prefix, listing_of(cut), patterns, show_files);
    lemma_rows_of_cut(nodes, prefix, patterns, show_files);
    if k < rows.len() {
        let row = rows[k];
        lemma_hidden_entries_leave_no_trace(nodes, prefix, k + 1, dir, patterns, show_files);
        if row.descend is Some {
            let node = nodes[row.index];
            if listable(node) {
                lemma_hidden_entries_leave_no_trace(
                    node.children,
                    row.descend->0,
                    0,
                    child_path(dir, node.name),
                    patterns,
                    show_files,
                );
            }
        }
    }
}

/// Every line of a level stands for an entry that is shown, every entry
/// that is shown has its line, and no entry has two.
pub proof fn lemma_one_row_for_each_shown_entry(
    prefix: Seq<char>,
    listing: Seq<EntryView>,
    patterns: Seq<Seq<char>>,
    show_files: bool,
)
    ensures
        ({
            let rows = rows_of(prefix, listing, patterns, show_files);
            &&& forall|k: int|
                0 <= k < rows.len() ==> {
                    let at = (#[trigger] rows[k]).index;
                    0 <= at < listing.len() && visible(listing[at], patterns, show_files)
                }
            &&& forall|i: int|
                0 <= i < listing.len() && visible(#[trigger] listing[i], patterns, show_files)
                    ==> exists|k: int| 0 <= k < rows.len() && (#[trigger] rows[k]).index == i
            &&& forall|k: int, l: int|
                0 <= k < l < rows.len() ==> (#[trigger] rows[k]).index != (#[trigger] rows[l]).index
        }),
{
    let rows = rows_of(prefix, listing, patterns, show_files);
    let order = arranged(listing, patterns, show_files);
    crate::arrange::lemma_arranged_shows_the_visible_in_order(listing, patterns, show_files);
    assert forall|k: int| 0 <= k < rows.len() implies {
        let at = (#[trigger] rows[k]).index;
        0 <= at < listing.len() && visible(listing[at], patterns, show_files)
    } by {
        assert(order.contains(order[k]));
    }
    assert forall|i: int|
        0 <= i < listing.len() && visible(#[trigger] listing[i], patterns, show_files) implies (
    exists|k: int| 0 <= k < rows.len() && (#[trigger] rows[k]).index == i) by {
        assert(order.contains(i));
        let k = choose|k: int| 0 <= k < order.len() && order[k] == i;
        assert(rows[k].index == i);
    }
}

} // verus!
