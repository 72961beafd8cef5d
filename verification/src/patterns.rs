//! The ignore file of a directory and the patterns it lists.
//!
//! The file holds one pattern per line. A line is trimmed of white space;
//! what is then empty or begins with `#` is a comment. Every other line is
//! a pattern, and a pattern hides the entries whose name it equals, letter
//! for letter: `*.swp` hides a file called `*.swp` and no other.

use vstd::prelude::*;
use vstd::string::*;
use crate::error::{TreeError, TreeErrorView};
use crate::text::{
    characters, is_space, lemma_first_of, lemma_trim_end, lemma_trim_end_bounds, lemma_trim_start,
    lines, spans_cover, texts, trim_end, trimmed, trimmed_spans,
};
use crate::model::{
    child_path, find_child, join_path, lemma_position_of_push, lemma_view_children, listable,
    opens, position_of, views,
    Kind, Location, LocationView, Node, NodeView,
};

verus! {

/// Name of the file that lists what a directory's tree leaves out.
pub const IGNORE_FILE: &'static str = ".tree_ignore";

/// The ignore file is called `.tree_ignore`.
pub proof fn lemma_ignore_file_name()
    ensures
        IGNORE_FILE@ == seq!['.', 't', 'r', 'e', 'e', '_', 'i', 'g', 'n', 'o', 'r', 'e'],
{
    reveal_strlit(".tree_ignore");
    assert(IGNORE_FILE@ =~= seq!['.', 't', 'r', 'e', 'e', '_', 'i', 'g', 'n', 'o', 'r', 'e']);
}

/// What a new ignore file holds.
pub const DEFAULT_IGNORE: &'static str = "# Tree ignore patterns configuration file
# This file controls which directories and files are ignored when printing the tree
# Add one pattern per line (exact name matches only)
# Lines starting with # are comments and will be ignored
#
# You can edit this file to customize which items are ignored
# Use 'tree --clear' to remove this configuration file

# Build and compilation outputs
target
build
dist
out

# Dependencies and package managers
node_modules
vendor
.pnpm-store

# Version control
.git
.svn
.hg

# IDE and editor files
.vscode
.idea
.idea.old
*.swp
*.swo
*~

# OS generated files
.DS_Store
Thumbs.db

# Temporary and cache directories
tmp
temp
cache
.cache

# Legacy or backup directories
old_do_not_use
backup
";

/// Whether a trimmed line is a pattern: it is not empty and no comment.
pub open spec fn is_pattern(line: Seq<char>) -> bool {
    line.len() > 0 && line[0] != '#'
}

/// The patterns that the text of an ignore file lists, in the order of the
/// file.
pub open spec fn patterns_of(content: Seq<char>) -> Seq<Seq<char>> {
    patterns_among(lines(content))
}

/// The patterns among the lines of an ignore file: each line trimmed, and
/// the comments left out.
pub open spec fn patterns_among(lines: Seq<Seq<char>>) -> Seq<Seq<char>> {
    lines.map_values(|line: Seq<char>| trimmed(line)).filter(|line: Seq<char>| is_pattern(line))
}

proof fn lemma_patterns_among_push(lines: Seq<Seq<char>>, line: Seq<char>)
    ensures
        patterns_among(lines.push(line)) == if is_pattern(trimmed(line)) {
            patterns_among(lines).push(trimmed(line))
        } else {
            patterns_among(lines)
        },
{
    let trim = |line: Seq<char>| trimmed(line);
    let keep = |line: Seq<char>| is_pattern(line);
    lines.lemma_push_map_commute(trim, line);
    lines.map_values(trim).lemma_filter_push(trim(line), keep);
}

proof fn lemma_patterns_among_first(line: Seq<char>, rest: Seq<Seq<char>>)
    ensures
        patterns_among(seq![line] + rest) == (if is_pattern(trimmed(line)) {
            seq![trimmed(line)]
        } else {
            Seq::<Seq<char>>::empty()
        }) + patterns_among(rest),
{
    let trim = |line: Seq<char>| trimmed(line);
    let keep = |line: Seq<char>| is_pattern(line);
    let single = seq![trim(line)];
    assert((seq![line] + rest).map_values(trim) =~= single + rest.map_values(trim));
    Seq::filter_distributes_over_add(single, rest.map_values(trim), keep);
    reveal_with_fuel(Seq::filter, 2);
    assert(single.drop_last() =~= Seq::<Seq<char>>::empty());
    assert(single.last() == trim(line));
    if is_pattern(trimmed(line)) {
        assert(single.filter(keep) =~= single);
    } else {
        assert(single.filter(keep) =~= Seq::<Seq<char>>::empty());
    }
}

/// Whether a line of `n` characters begins at position `p` of a text and
/// ends in a line feed.
pub open spec fn line_at(s: Seq<char>, p: int, n: int) -> bool {
    &&& 0 <= p
    &&& 0 <= n
    &&& p + n < s.len()
    &&& forall|i: int| p <= i < p + n ==> s[i] != '\n'
    &&& s[p + n] == '\n'
}

/// Whether the line at position `p` is the pattern `name` as it stands:
/// it begins and ends with something other than white space and does not
/// begin with `#`.
#[verifier::opaque]
pub open spec fn pattern_at(s: Seq<char>, p: int, n: int, name: Seq<char>) -> bool {
    &&& line_at(s, p, n)
    &&& 0 < n
    &&& !is_space(s[p])
    &&& !is_space(s[p + n - 1])
    &&& s[p] != '#'
    &&& s.subrange(p, p + n) == name
}

/// Whether the line at position `p` is empty or begins with `#`.
#[verifier::opaque]
pub open spec fn comment_at(s: Seq<char>, p: int, n: int) -> bool {
    &&& line_at(s, p, n)
    &&& n == 0 || s[p] == '#'
}

proof fn lemma_line_taken(s: Seq<char>, p: int, n: int)
    requires
        line_at(s, p, n),
    ensures
        patterns_of(s.skip(p)) == (if is_pattern(trimmed(s.subrange(p, p + n))) {
            seq![trimmed(s.subrange(p, p + n))]
        } else {
            Seq::<Seq<char>>::empty()
        }) + patterns_of(s.skip(p + n + 1)),
{
    let rest = s.skip(p);
    lemma_first_of(rest, '\n', n);
    assert(rest.take(n) =~= s.subrange(p, p + n));
    assert(rest.skip(n + 1) =~= s.skip(p + n + 1));
    lemma_patterns_among_first(s.subrange(p, p + n), lines(s.skip(p + n + 1)));
}

/// A line that is a pattern as it stands is the first pattern of what
/// begins with it.
pub proof fn lemma_line_kept(s: Seq<char>, p: int, n: int, name: Seq<char>)
    requires
        pattern_at(s, p, n, name),
    ensures
        patterns_of(s.skip(p)) == seq![name] + patterns_of(s.skip(p + n + 1)),
{
    reveal(pattern_at);
    let line = s.subrange(p, p + n);
    lemma_line_taken(s, p, n);
    lemma_trim_start(line, 0);
    lemma_trim_end(line, n);
    assert(trimmed(line) =~= line);
}

/// A line that is empty or begins with `#` adds no pattern.
pub proof fn lemma_line_dropped(s: Seq<char>, p: int, n: int)
    requires
        comment_at(s, p, n),
    ensures
        patterns_of(s.skip(p)) == patterns_of(s.skip(p + n + 1)),
{
    reveal(comment_at);
    let line = s.subrange(p, p + n);
    lemma_line_taken(s, p, n);
    lemma_trim_start(line, 0);
    lemma_trim_end_bounds(line);
    if n > 0 {
        lemma_trim_end_keeps_the_start(line);
    }
    assert(Seq::<Seq<char>>::empty() + patterns_of(s.skip(p + n + 1)) =~= patterns_of(
        s.skip(p + n + 1),
    ));
}

proof fn lemma_trim_end_keeps_the_start(s: Seq<char>)
    requires
        s.len() > 0,
        !is_space(s[0]),
    ensures
        trim_end(s) >= 1,
    decreases s.len(),
{
    if is_space(s.last()) {
        lemma_trim_end_keeps_the_start(s.drop_last());
    }
}

proof fn lemma_pattern_found(
    s: Seq<char>,
    found: Seq<Seq<char>>,
    p: int,
    n: int,
    name: Seq<char>,
)
    requires
        pattern_at(s, p, n, name),
        patterns_of(s) == found + patterns_of(s.skip(p)),
    ensures
        patterns_of(s) == found.push(name) + patterns_of(s.skip(p + n + 1)),
{
    lemma_line_kept(s, p, n, name);
    let rest = patterns_of(s.skip(p + n + 1));
    assert(found + (seq![name] + rest) =~= found.push(name) + rest);
}

proof fn lemma_comment_passed(s: Seq<char>, found: Seq<Seq<char>>, p: int, n: int)
    requires
        comment_at(s, p, n),
        patterns_of(s) == found + patterns_of(s.skip(p)),
    ensures
        patterns_of(s) == found + patterns_of(s.skip(p + n + 1)),
{
    lemma_line_dropped(s, p, n);
}

/// The default ignore file, line by line: where each line begins, how long
/// it is, and whether it is a comment or a pattern.
pub proof fn lemma_default_lines()
    ensures
        DEFAULT_IGNORE@.len() == 728,
        comment_at(DEFAULT_IGNORE@, 0, 41),
        comment_at(DEFAULT_IGNORE@, 42, 83),
        comment_at(DEFAULT_IGNORE@, 126, 52),
        comment_at(DEFAULT_IGNORE@, 179, 56),
        comment_at(DEFAULT_IGNORE@, 236, 1),
        comment_at(DEFAULT_IGNORE@, 238, 61),
        comment_at(DEFAULT_IGNORE@, 300, 54),
        comment_at(DEFAULT_IGNORE@, 355, 0),
        comment_at(DEFAULT_IGNORE@, 356, 31),
        pattern_at(DEFAULT_IGNORE@, 388, 6, "target"@),
        pattern_at(DEFAULT_IGNORE@, 395, 5, "build"@),
        pattern_at(DEFAULT_IGNORE@, 401, 4, "dist"@),
        pattern_at(DEFAULT_IGNORE@, 406, 3, "out"@),
        comment_at(DEFAULT_IGNORE@, 410, 0),
        comment_at(DEFAULT_IGNORE@, 411, 35),
        pattern_at(DEFAULT_IGNORE@, 447, 12, "node_modules"@),
        pattern_at(DEFAULT_IGNORE@, 460, 6, "vendor"@),
        pattern_at(DEFAULT_IGNORE@, 467, 11, ".pnpm-store"@),
        comment_at(DEFAULT_IGNORE@, 479, 0),
        comment_at(DEFAULT_IGNORE@, 480, 17),
        pattern_at(DEFAULT_IGNORE@, 498, 4, ".git"@),
        pattern_at(DEFAULT_IGNORE@, 503, 4, ".svn"@),
        pattern_at(DEFAULT_IGNORE@, 508, 3, ".hg"@),
        comment_at(DEFAULT_IGNORE@, 512, 0),
        comment_at(DEFAULT_IGNORE@, 513, 22),
        pattern_at(DEFAULT_IGNORE@, 536, 7, ".vscode"@),
        pattern_at(DEFAULT_IGNORE@, 544, 5, ".idea"@),
        pattern_at(DEFAULT_IGNORE@, 550, 9, ".idea.old"@),
        pattern_at(DEFAULT_IGNORE@, 560, 5, "*.swp"@),
        pattern_at(DEFAULT_IGNORE@, 566, 5, "*.swo"@),
        pattern_at(DEFAULT_IGNORE@, 572, 2, "*~"@),
        comment_at(DEFAULT_IGNORE@, 575, 0),
        comment_at(DEFAULT_IGNORE@, 576, 20),
        pattern_at(DEFAULT_IGNORE@, 597, 9, ".DS_Store"@),
        pattern_at(DEFAULT_IGNORE@, 607, 9, "Thumbs.db"@),
        comment_at(DEFAULT_IGNORE@, 617, 0),
        comment_at(DEFAULT_IGNORE@, 618, 33),
        pattern_at(DEFAULT_IGNORE@, 652, 3, "tmp"@),
        pattern_at(DEFAULT_IGNORE@, 656, 4, "temp"@),
        pattern_at(DEFAULT_IGNORE@, 661, 5, "cache"@),
        pattern_at(DEFAULT_IGNORE@, 667, 6, ".cache"@),
        comment_at(DEFAULT_IGNORE@, 674, 0),
        comment_at(DEFAULT_IGNORE@, 675, 30),
        pattern_at(DEFAULT_IGNORE@, 706, 14, "old_do_not_use"@),
        pattern_at(DEFAULT_IGNORE@, 721, 6, "backup"@),
{
    reveal(pattern_at);
    reveal(comment_at);
    reveal_strlit("# Tree ignore patterns configuration file
# This file controls which directories and files are ignored when printing the tree
# Add one pattern per line (exact name matches only)
# Lines starting with # are comments and will be ignored
#
# You can edit this file to customize which items are ignored
# Use 'tree --clear' to remove this configuration file

# Build and compilation outputs
target
build
dist
out

# Dependencies and package managers
node_modules
vendor
.pnpm-store

# Version control
.git
.svn
.hg

# IDE and editor files
.vscode
.idea
.idea.old
*.swp
*.swo
*~

# OS generated files
.DS_Store
Thumbs.db

# Temporary and cache directories
tmp
temp
cache
.cache

# Legacy or backup directories
old_do_not_use
backup
");
    let text = DEFAULT_IGNORE@;
    reveal_strlit("target");
    reveal_strlit("build");
    reveal_strlit("dist");
    reveal_strlit("out");
    reveal_strlit("node_modules");
    reveal_strlit("vendor");
    reveal_strlit(".pnpm-store");
    reveal_strlit(".git");
    reveal_strlit(".svn");
    reveal_strlit(".hg");
    reveal_strlit(".vscode");
    reveal_strlit(".idea");
    reveal_strlit(".idea.old");
    reveal_strlit("*.swp");
    reveal_strlit("*.swo");
    reveal_strlit("*~");
    reveal_strlit(".DS_Store");
    reveal_strlit("Thumbs.db");
    reveal_strlit("tmp");
    reveal_strlit("temp");
    reveal_strlit("cache");
    reveal_strlit(".cache");
    reveal_strlit("old_do_not_use");
    reveal_strlit("backup");
    assert(text.subrange(388, 394) =~= "target"@);
    assert(text.subrange(395, 400) =~= "build"@);
    assert(text.subrange(401, 405) =~= "dist"@);
    assert(text.subrange(406, 409) =~= "out"@);
    assert(text.subrange(447, 459) =~= "node_modules"@);
    assert(text.subrange(460, 466) =~= "vendor"@);
    assert(text.subrange(467, 478) =~= ".pnpm-store"@);
    assert(text.subrange(498, 502) =~= ".git"@);
    assert(text.subrange(503, 507) =~= ".svn"@);
    assert(text.subrange(508, 511) =~= ".hg"@);
    assert(text.subrange(536, 543) =~= ".vscode"@);
    assert(text.subrange(544, 549) =~= ".idea"@);
    assert(text.subrange(550, 559) =~= ".idea.old"@);
    assert(text.subrange(560, 565) =~= "*.swp"@);
    assert(text.subrange(566, 571) =~= "*.swo"@);
    assert(text.subrange(572, 574) =~= "*~"@);
    assert(text.subrange(597, 606) =~= ".DS_Store"@);
    assert(text.subrange(607, 616) =~= "Thumbs.db"@);
    assert(text.subrange(652, 655) =~= "tmp"@);
    assert(text.subrange(656, 660) =~= "temp"@);
    assert(text.subrange(661, 666) =~= "cache"@);
    assert(text.subrange(667, 673) =~= ".cache"@);
    assert(text.subrange(706, 720) =~= "old_do_not_use"@);
    assert(text.subrange(721, 727) =~= "backup"@);
}

/// The default ignore file lists these twenty-four names and no others, in
/// this order.
pub proof fn lemma_default_patterns()
    ensures
        patterns_of(DEFAULT_IGNORE@) == seq![
            "target"@,
            "build"@,
            "dist"@,
            "out"@,
            "node_modules"@,
            "vendor"@,
            ".pnpm-store"@,
            ".git"@,
            ".svn"@,
            ".hg"@,
            ".vscode"@,
            ".idea"@,
            ".idea.old"@,
            "*.swp"@,
            "*.swo"@,
            "*~"@,
            ".DS_Store"@,
            "Thumbs.db"@,
            "tmp"@,
            "temp"@,
            "cache"@,
            ".cache"@,
            "old_do_not_use"@,
            "backup"@,
        ],
{
    lemma_default_lines();
    let text = DEFAULT_IGNORE@;
    let found0 = Seq::<Seq<char>>::empty();
    assert(text.skip(0) =~= text);
    assert(found0 + patterns_of(text.skip(0)) =~= patterns_of(text));
    lemma_comment_passed(text, found0, 0, 41);
    lemma_comment_passed(text, found0, 42, 83);
    lemma_comment_passed(text, found0, 126, 52);
    lemma_comment_passed(text, found0, 179, 56);
    lemma_comment_passed(text, found0, 236, 1);
    lemma_comment_passed(text, found0, 238, 61);
    lemma_comment_passed(text, found0, 300, 54);
    lemma_comment_passed(text, found0, 355, 0);
    lemma_comment_passed(text, found0, 356, 31);
    lemma_pattern_found(text, found0, 388, 6, "target"@);
    let found1 = found0.push("target"@);
    lemma_pattern_found(text, found1, 395, 5, "build"@);
    let found2 = found1.push("build"@);
    lemma_pattern_found(text, found2, 401, 4, "dist"@);
    let found3 = found2.push("dist"@);
    lemma_pattern_found(text, found3, 406, 3, "out"@);
    let found4 = found3.push("out"@);
    lemma_comment_passed(text, found4, 410, 0);
    lemma_comment_passed(text, found4, 411, 35);
    lemma_pattern_found(text, found4, 447, 12, "node_modules"@);
    let found5 = found4.push("node_modules"@);
    lemma_pattern_found(text, found5, 460, 6, "vendor"@);
    let found6 = found5.push("vendor"@);
    lemma_pattern_found(text, found6, 467, 11, ".pnpm-store"@);
    let found7 = found6.push(".pnpm-store"@);
    lemma_comment_passed(text, found7, 479, 0);
    lemma_comment_passed(text, found7, 480, 17);
    lemma_pattern_found(text, found7, 498, 4, ".git"@);
    let found8 = found7.push(".git"@);
    lemma_pattern_found(text, found8, 503, 4, ".svn"@);
    let found9 = found8.push(".svn"@);
    lemma_pattern_found(text, found9, 508, 3, ".hg"@);
    let found10 = found9.push(".hg"@);
    lemma_comment_passed(text, found10, 512, 0);
    lemma_comment_passed(text, found10, 513, 22);
    lemma_pattern_found(text, found10, 536, 7, ".vscode"@);
    let found11 = found10.push(".vscode"@);
    lemma_pattern_found(text, found11, 544, 5, ".idea"@);
    let found12 = found11.push(".idea"@);
    lemma_pattern_found(text, found12, 550, 9, ".idea.old"@);
    let found13 = found12.push(".idea.old"@);
    lemma_pattern_found(text, found13, 560, 5, "*.swp"@);
    let found14 = found13.push("*.swp"@);
    lemma_pattern_found(text, found14, 566, 5, "*.swo"@);
    let found15 = found14.push("*.swo"@);
    lemma_pattern_found(text, found15, 572, 2, "*~"@);
    let found16 = found15.push("*~"@);
    lemma_comment_passed(text, found16, 575, 0);
    lemma_comment_passed(text, found16, 576, 20);
    lemma_pattern_found(text, found16, 597, 9, ".DS_Store"@);
    let found17 = found16.push(".DS_Store"@);
    lemma_pattern_found(text, found17, 607, 9, "Thumbs.db"@);
    let found18 = found17.push("Thumbs.db"@);
    lemma_comment_passed(text, found18, 617, 0);
    lemma_comment_passed(text, found18, 618, 33);
    lemma_pattern_found(text, found18, 652, 3, "tmp"@);
    let found19 = found18.push("tmp"@);
    lemma_pattern_found(text, found19, 656, 4, "temp"@);
    let found20 = found19.push("temp"@);
    lemma_pattern_found(text, found20, 661, 5, "cache"@);
    let found21 = found20.push("cache"@);
    lemma_pattern_found(text, found21, 667, 6, ".cache"@);
    let found22 = found21.push(".cache"@);
    lemma_comment_passed(text, found22, 674, 0);
    lemma_comment_passed(text, found22, 675, 30);
    lemma_pattern_found(text, found22, 706, 14, "old_do_not_use"@);
    let found23 = found22.push("old_do_not_use"@);
    lemma_pattern_found(text, found23, 721, 6, "backup"@);
    let found24 = found23.push("backup"@);
    assert(text.skip(728) =~= Seq::<char>::empty());
    assert(patterns_of(text.skip(728)) =~= Seq::<Seq<char>>::empty());
    assert(found24 + Seq::<Seq<char>>::empty() =~= found24);
}

/// The default ignore file does not hide the ignore file itself.
pub proof fn lemma_default_patterns_spare_the_ignore_file()
    ensures
        !patterns_of(DEFAULT_IGNORE@).contains(IGNORE_FILE@),
{
    lemma_default_patterns();
    lemma_ignore_file_name();
    let patterns = patterns_of(DEFAULT_IGNORE@);
    reveal_strlit("target");
    reveal_strlit("build");
    reveal_strlit("dist");
    reveal_strlit("out");
    reveal_strlit("node_modules");
    reveal_strlit("vendor");
    reveal_strlit(".pnpm-store");
    reveal_strlit(".git");
    reveal_strlit(".svn");
    reveal_strlit(".hg");
    reveal_strlit(".vscode");
    reveal_strlit(".idea");
    reveal_strlit(".idea.old");
    reveal_strlit("*.swp");
    reveal_strlit("*.swo");
    reveal_strlit("*~");
    reveal_strlit(".DS_Store");
    reveal_strlit("Thumbs.db");
    reveal_strlit("tmp");
    reveal_strlit("temp");
    reveal_strlit("cache");
    reveal_strlit(".cache");
    reveal_strlit("old_do_not_use");
    reveal_strlit("backup");
    assert forall|i: int| 0 <= i < patterns.len() implies patterns[i] != IGNORE_FILE@ by {
        assert(patterns[0] != IGNORE_FILE@);
        assert(patterns[1] != IGNORE_FILE@);
        assert(patterns[2] != IGNORE_FILE@);
        assert(patterns[3] != IGNORE_FILE@);
        assert(patterns[4] != IGNORE_FILE@);
        assert(patterns[5] != IGNORE_FILE@);
        assert(patterns[6] != IGNORE_FILE@);
        assert(patterns[7] != IGNORE_FILE@);
        assert(patterns[8] != IGNORE_FILE@);
        assert(patterns[9] != IGNORE_FILE@);
        assert(patterns[10] != IGNORE_FILE@);
        assert(patterns[11] != IGNORE_FILE@);
        assert(patterns[12] != IGNORE_FILE@);
        assert(patterns[13] != IGNORE_FILE@);
        assert(patterns[14] != IGNORE_FILE@);
        assert(patterns[15] != IGNORE_FILE@);
        assert(patterns[16] != IGNORE_FILE@);
        assert(patterns[17] != IGNORE_FILE@);
        assert(patterns[18] != IGNORE_FILE@);
        assert(patterns[19] != IGNORE_FILE@);
        assert(patterns[20] != IGNORE_FILE@);
        assert(patterns[21] != IGNORE_FILE@);
        assert(patterns[22] != IGNORE_FILE@);
        assert(patterns[23] != IGNORE_FILE@);
    }
}

/// Reads the patterns out of the text of an ignore file.
pub fn parse_patterns(content: &str) -> (patterns: Vec<String>)
    ensures
        texts(patterns@) == patterns_of(content@),
{
    let chars = characters(content);
    let spans = trimmed_spans(&chars);
    let ghost all = lines(content@);
    let mut patterns: Vec<String> = Vec::new();
    let mut k: usize = 0;
    proof {
        assert(all.take(0) =~= Seq::<Seq<char>>::empty());
        assert(texts(patterns@) =~= patterns_among(all.take(0)));
    }
    while k < spans.len()
        invariant
            k <= spans.len(),
            chars@ == content@,
            all == lines(content@),
            spans_cover(content@, spans@),
            texts(patterns@) == patterns_among(all.take(k as int)),
        decreases spans.len() - k,
    {
        let (from, to) = spans[k];
        proof {
            assert(spans@[k as int] == (from, to));
            assert(content@.subrange(from as int, to as int) == trimmed(all[k as int]));
            lemma_patterns_among_push(all.take(k as int), all[k as int]);
            assert(all.take(k + 1) =~= all.take(k as int).push(all[k as int]));
        }
        if from < to && chars[from] != '#' {
            let pattern = content.substring_char(from, to);
            patterns.push(String::from_str(pattern));
            proof {
                assert(texts(patterns@) =~= patterns_among(all.take(k as int)).push(
                    trimmed(all[k as int]),
                ));
            }
        }
        k += 1;
    }
    proof {
        assert(all.take(k as int) =~= all);
    }
    patterns
}

/// What printing does about the ignore file of its root, given the text of
/// the file where there is one: the text to write where there is none, and
/// the patterns to print with.
pub fn settle_ignore_file(existing: Option<&str>) -> (settled: (Option<&'static str>, Vec<String>))
    ensures
        match existing {
            Some(content) => settled.0 is None && texts(settled.1@) == patterns_of(content@),
            None => settled.0 == Some(DEFAULT_IGNORE) && texts(settled.1@) == patterns_of(
                DEFAULT_IGNORE@,
            ),
        },
{
    match existing {
        Some(content) => (None, parse_patterns(content)),
        None => (Some(DEFAULT_IGNORE), parse_patterns(DEFAULT_IGNORE)),
    }
}

/// The ignore file of the directory at a location: the first entry of
/// that name, where the location holds a directory that can be listed.
pub open spec fn ignore_file_of(base: LocationView) -> Option<NodeView> {
    match base.node {
        Some(dir) => {
            let at = position_of(dir.children, IGNORE_FILE@);
            if listable(dir) && at < dir.children.len() {
                Some(dir.children[at])
            } else {
                None
            }
        },
        None => None,
    }
}

/// Whether the directory at a location has an ignore file.
pub fn has_ignore_file(base: &Location) -> (present: bool)
    ensures
        present == ignore_file_of(base@) is Some,
{
    match &base.node {
        Some(dir) => {
            proof {
                lemma_view_children(*dir);
            }
            dir.kind.is_dir() && !dir.locked && find_child(&dir.children, IGNORE_FILE).is_some()
        },
        None => false,
    }
}

/// The error for an ignore file that cannot be read.
pub open spec fn ignore_read_error(base: Seq<char>) -> TreeErrorView {
    TreeErrorView::Io("Failed to read ignore file: "@ + child_path(base, IGNORE_FILE@))
}

/// The error for an ignore file that cannot be written.
pub open spec fn ignore_write_error(base: Seq<char>) -> TreeErrorView {
    TreeErrorView::Io("Failed to create ignore file: "@ + child_path(base, IGNORE_FILE@))
}

/// The error for an ignore file that cannot be read.
pub fn ignore_read_failed(base: &str) -> (error: TreeError)
    ensures
        error@ == ignore_read_error(base@),
{
    let mut text = String::from_str("Failed to read ignore file: ");
    let path = join_path(base, IGNORE_FILE);
    text.append(path.as_str());
    TreeError::Io(text)
}

/// The error for an ignore file that cannot be written.
pub fn ignore_write_failed(base: &str) -> (error: TreeError)
    ensures
        error@ == ignore_write_error(base@),
{
    let mut text = String::from_str("Failed to create ignore file: ");
    let path = join_path(base, IGNORE_FILE);
    text.append(path.as_str());
    TreeError::Io(text)
}

/// What reading the patterns of the directory at a location gives: none
/// where there is no ignore file, the patterns of the file where it can be
/// opened, an error where it cannot.
pub open spec fn patterns_read(base: LocationView) -> Result<Seq<Seq<char>>, TreeErrorView> {
    match ignore_file_of(base) {
        None => Ok(Seq::empty()),
        Some(file) => if opens(file) {
            Ok(patterns_of(file.content))
        } else {
            Err(ignore_read_error(base.text))
        },
    }
}

/// The view of a result that carries patterns or an error.
pub open spec fn patterns_view(r: Result<Vec<String>, TreeError>) -> Result<
    Seq<Seq<char>>,
    TreeErrorView,
> {
    match r {
        Ok(patterns) => Ok(texts(patterns@)),
        Err(e) => Err(e@),
    }
}

/// Reads the patterns of the directory at a location from its ignore file.
///
/// A directory without an ignore file has no patterns; that is no error.
/// An ignore file that is there and cannot be opened is one.
pub fn read_ignore_patterns(base: &Location) -> (result: Result<Vec<String>, TreeError>)
    ensures
        patterns_view(result) == patterns_read(base@),
{
    if !has_ignore_file(base) {
        let none: Vec<String> = Vec::new();
        proof {
            assert(texts(none@) =~= Seq::<Seq<char>>::empty());
        }
        return Ok(none);
    }
    match &base.node {
        Some(dir) => {
            proof {
                lemma_view_children(*dir);
            }
            match find_child(&dir.children, IGNORE_FILE) {
                Some(at) => {
                    let file = &dir.children[at];
                    proof {
                        lemma_view_children(*file);
                    }
                    if file.kind.is_dir() || file.locked {
                        Err(ignore_read_failed(base.text.as_str()))
                    } else {
                        Ok(parse_patterns(file.content.as_str()))
                    }
                },
                None => Ok(Vec::new()),
            }
        },
        None => Ok(Vec::new()),
    }
}

/// The ignore file that [`create_default_ignore_file`] writes.
pub open spec fn default_ignore_file() -> NodeView {
    NodeView {
        name: IGNORE_FILE@,
        kind: Kind::File,
        content: DEFAULT_IGNORE@,
        children: Seq::empty(),
        vcs_ignored: false,
        locked: false,
    }
}

/// What seeding the directory at a location with the default ignore file
/// makes of the location. Where the directory has an entry of that name,
/// nothing changes, whatever the entry holds; where it has none, the
/// default file is added behind the other entries. It fails where the
/// location holds no directory that can be listed.
pub open spec fn default_file_created(base: LocationView) -> Result<LocationView, TreeErrorView> {
    match base.node {
        None => Err(ignore_write_error(base.text)),
        Some(dir) => {
            if !listable(dir) {
                Err(ignore_write_error(base.text))
            } else if position_of(dir.children, IGNORE_FILE@) < dir.children.len() {
                Ok(base)
            } else {
                Ok(
                    LocationView {
                        node: Some(
                            NodeView {
                                children: dir.children.push(default_ignore_file()),
                                ..dir
                            },
                        ),
                        ..base
                    },
                )
            }
        },
    }
}

/// Seeding never alters an ignore file that is there, and seeding twice is
/// seeding once: after a seeding that succeeded the directory has an ignore
/// file, and a further seeding changes nothing.
pub proof fn lemma_seeding_is_idempotent(base: LocationView)
    ensures
        ignore_file_of(base) is Some ==> default_file_created(base) == Ok::<
            LocationView,
            TreeErrorView,
        >(base),
        default_file_created(base) matches Ok(after) ==> ignore_file_of(after) is Some
            && default_file_created(after) == Ok::<LocationView, TreeErrorView>(after),
{
    if base.node is Some {
        lemma_position_of_push(base.node->0.children, default_ignore_file(), IGNORE_FILE@);
    }
}

/// Seeds the directory at a location with the default ignore file.
///
/// An ignore file that is already there is never overwritten: the call
/// succeeds and leaves it as it is, even where its text is not the default
/// text.
pub fn create_default_ignore_file(base: &mut Location) -> (result: Result<(), TreeError>)
    ensures
        match default_file_created(old(base)@) {
            Ok(after) => result is Ok && final(base)@ == after,
            Err(e) => result is Err && result->Err_0@ == e && final(base)@ == old(base)@,
        },
{
    match &mut base.node {
        None => Err(ignore_write_failed(base.text.as_str())),
        Some(dir) => {
            proof {
                lemma_view_children(*dir);
            }
            if !dir.kind.is_dir() || dir.locked {
                return Err(ignore_write_failed(base.text.as_str()));
            }
            match find_child(&dir.children, IGNORE_FILE) {
                Some(_) => Ok(()),
                None => {
                    let ghost children_before = dir.children@;
                    let file = Node::file(IGNORE_FILE, DEFAULT_IGNORE);
                    dir.children.push(file);
                    proof {
                        lemma_view_children(*dir);
                        assert(views(dir.children@) =~= views(children_before).push(file@));
                    }
                    Ok(())
                },
            }
        },
    }
}

} // verus!
