//! Which entries of a directory are shown, and in what order.
//!
//! An entry is shown unless version control ignores it or the ignore file
//! lists its name. Directories come first, then files; within each group the
//! names ascend by their bytes, so the order is case-sensitive.

use vstd::prelude::*;
use vstd::utf8::encode_utf8;
use crate::text::{
    bytes_before, lemma_bytes_before_irreflexive, lemma_bytes_before_total,
    lemma_bytes_before_transitive, lemma_encoding_injective, name_before, same_text, sorts_before,
    texts,
};

verus! {

/// One entry of a directory, as a listing reports it.
#[derive(Debug, Clone, PartialEq, Eq)]
pub struct Entry {
    /// Base name of the entry.
    pub name: String,
    /// Whether the entry is a directory.
    pub is_dir: bool,
    /// Whether version control ignore rules exclude the entry.
    pub vcs_ignored: bool,
}

/// An [`Entry`] as a mathematical value.
pub ghost struct EntryView {
    pub name: Seq<char>,
    pub is_dir: bool,
    pub vcs_ignored: bool,
}

impl View for Entry {
    type V = EntryView;

    open spec fn view(&self) -> EntryView {
        EntryView { name: self.name@, is_dir: self.is_dir, vcs_ignored: self.vcs_ignored }
    }
}

/// The mathematical values of a listing.
pub open spec fn entry_views(listing: Seq<Entry>) -> Seq<EntryView> {
    Seq::new(listing.len(), |i: int| listing[i]@)
}

/// Whether the ignore file's patterns hide an entry of this name: one of
/// them is the name, letter for letter.
pub open spec fn listed(name: Seq<char>, patterns: Seq<Seq<char>>) -> bool {
    patterns.contains(name)
}

/// Whether the patterns of the ignore file hide the entry.
pub fn should_ignore(entry: &Entry, ignore_patterns: &[String]) -> (hidden: bool)
    ensures
        hidden == listed(entry@.name, texts(ignore_patterns@)),
{
    let ghost patterns = texts(ignore_patterns@);
    let mut i: usize = 0;
    while i < ignore_patterns.len()
        invariant
            i <= ignore_patterns.len(),
            patterns == texts(ignore_patterns@),
            forall|k: int| 0 <= k < i ==> patterns[k] != entry.name@,
        decreases ignore_patterns.len() - i,
    {
        if same_text(ignore_patterns[i].as_str(), entry.name.as_str()) {
            assert(patterns[i as int] == entry.name@);
            return true;
        }
        i += 1;
    }
    false
}

/// Whether an entry is shown: neither mechanism hides it, and it is a
/// directory where only directories are asked for.
pub open spec fn visible(entry: EntryView, patterns: Seq<Seq<char>>, show_files: bool) -> bool {
    &&& !entry.vcs_ignored
    &&& !listed(entry.name, patterns)
    &&& show_files || entry.is_dir
}

/// Whether an entry is shown.
pub fn is_visible(entry: &Entry, ignore_patterns: &[String], show_files: bool) -> (shown: bool)
    ensures
        shown == visible(entry@, texts(ignore_patterns@), show_files),
{
    !entry.vcs_ignored && (show_files || entry.is_dir) && !should_ignore(entry, ignore_patterns)
}

/// Whether the entry at position `i` of a listing is drawn above the one at
/// position `j`: a directory above a file, then the lesser name above the
/// greater, then the earlier position above the later.
pub open spec fn comes_before(listing: Seq<EntryView>, i: int, j: int) -> bool {
    let a = listing[i];
    let b = listing[j];
    if a.is_dir != b.is_dir {
        a.is_dir
    } else if a.name != b.name {
        name_before(a.name, b.name)
    } else {
        i < j
    }
}

/// Whether the entry at position `i` is drawn above the one at position `j`.
pub fn precedes(listing: &[Entry], i: usize, j: usize) -> (above: bool)
    requires
        i < listing.len(),
        j < listing.len(),
    ensures
        above == comes_before(entry_views(listing@), i as int, j as int),
{
    let a = &listing[i];
    let b = &listing[j];
    if a.is_dir != b.is_dir {
        a.is_dir
    } else if !same_text(a.name.as_str(), b.name.as_str()) {
        sorts_before(a.name.as_str(), b.name.as_str())
    } else {
        i < j
    }
}

/// The order `order` with position `x` put in front of the first position
/// that it comes before.
pub open spec fn inserted(listing: Seq<EntryView>, order: Seq<int>, x: int) -> Seq<int>
    decreases order.len(),
{
    if order.len() == 0 {
        seq![x]
    } else if comes_before(listing, x, order[0]) {
        seq![x] + order
    } else {
        seq![order[0]] + inserted(listing, order.drop_first(), x)
    }
}

/// The shown positions among the first `n` of a listing, in drawing order.
pub open spec fn arranged_upto(
    listing: Seq<EntryView>,
    patterns: Seq<Seq<char>>,
    show_files: bool,
    n: int,
) -> Seq<int>
    decreases n,
{
    if n <= 0 {
        Seq::empty()
    } else {
        let earlier = arranged_upto(listing, patterns, show_files, n - 1);
        if visible(listing[n - 1], patterns, show_files) {
            inserted(listing, earlier, n - 1)
        } else {
            earlier
        }
    }
}

/// The positions of the entries that are shown, in drawing order.
pub open spec fn arranged(
    listing: Seq<EntryView>,
    patterns: Seq<Seq<char>>,
    show_files: bool,
) -> Seq<int> {
    arranged_upto(listing, patterns, show_files, listing.len() as int)
}

/// Of two different positions one comes before the other.
pub proof fn lemma_comes_before_total(listing: Seq<EntryView>, i: int, j: int)
    requires
        i != j,
    ensures
        comes_before(listing, i, j) || comes_before(listing, j, i),
{
    let a = listing[i];
    let b = listing[j];
    if a.is_dir == b.is_dir && a.name != b.name {
        if encode_utf8(a.name) == encode_utf8(b.name) {
            lemma_encoding_injective(a.name, b.name);
        }
        lemma_bytes_before_total(encode_utf8(a.name), encode_utf8(b.name));
    }
}

/// No two positions come before each other.
pub proof fn lemma_comes_before_asymmetric(listing: Seq<EntryView>, i: int, j: int)
    ensures
        !(comes_before(listing, i, j) && comes_before(listing, j, i)),
{
    let a = encode_utf8(listing[i].name);
    let b = encode_utf8(listing[j].name);
    if bytes_before(a, b) && bytes_before(b, a) {
        lemma_bytes_before_transitive(a, b, a);
        lemma_bytes_before_irreflexive(a);
    }
}

/// What comes before a position comes before everything that the position
/// comes before.
pub proof fn lemma_comes_before_transitive(listing: Seq<EntryView>, i: int, j: int, k: int)
    requires
        comes_before(listing, i, j),
        comes_before(listing, j, k),
    ensures
        comes_before(listing, i, k),
{
    let a = listing[i];
    let b = listing[j];
    let c = listing[k];
    let x = encode_utf8(a.name);
    let y = encode_utf8(b.name);
    let z = encode_utf8(c.name);
    if a.is_dir == b.is_dir && b.is_dir == c.is_dir {
        if a.name != b.name && b.name != c.name {
            lemma_bytes_before_transitive(x, y, z);
            if a.name == c.name {
                lemma_bytes_before_irreflexive(x);
            }
        }
    }
}

/// Whether each position of `order` comes before all that follow it.
pub open spec fn in_drawing_order(listing: Seq<EntryView>, order: Seq<int>) -> bool {
    forall|k: int, l: int|
        0 <= k < l < order.len() ==> comes_before(listing, #[trigger] order[k], #[trigger] order[l])
}

/// Where [`inserted`] puts the new position.
spec fn slot(listing: Seq<EntryView>, order: Seq<int>, x: int) -> int
    decreases order.len(),
{
    if order.len() == 0 || comes_before(listing, x, order[0]) {
        0
    } else {
        1 + slot(listing, order.drop_first(), x)
    }
}

proof fn lemma_slot(listing: Seq<EntryView>, order: Seq<int>, x: int)
    ensures
        0 <= slot(listing, order, x) <= order.len(),
        inserted(listing, order, x) == order.insert(slot(listing, order, x), x),
        forall|q: int|
            0 <= q < slot(listing, order, x) ==> !comes_before(listing, x, #[trigger] order[q]),
        slot(listing, order, x) < order.len() ==> comes_before(
            listing,
            x,
            order[slot(listing, order, x)],
        ),
    decreases order.len(),
{
    if order.len() == 0 || comes_before(listing, x, order[0]) {
    } else {
        let tail = order.drop_first();
        lemma_slot(listing, tail, x);
        assert forall|q: int| 0 <= q < slot(listing, order, x) implies !comes_before(
            listing,
            x,
            #[trigger] order[q],
        ) by {
            if q > 0 {
                assert(order[q] == tail[q - 1]);
            }
        }
    }
    lemma_inserted_at(listing, order, x, slot(listing, order, x));
}

proof fn lemma_inserted_holds(listing: Seq<EntryView>, order: Seq<int>, x: int)
    ensures
        inserted(listing, order, x).len() == order.len() + 1,
        forall|y: int|
            inserted(listing, order, x).contains(y) <==> (y == x || order.contains(y)),
{
    let out = inserted(listing, order, x);
    let p = slot(listing, order, x);
    lemma_slot(listing, order, x);
    assert forall|y: int| out.contains(y) <==> (y == x || order.contains(y)) by {
        if out.contains(y) {
            let k = choose|k: int| 0 <= k < out.len() && out[k] == y;
            if k < p {
                assert(order[k] == y);
            } else if k > p {
                assert(order[k - 1] == y);
            }
        }
        if y == x {
            assert(out[p] == y);
        } else if order.contains(y) {
            let k = choose|k: int| 0 <= k < order.len() && order[k] == y;
            if k < p {
                assert(out[k] == y);
            } else {
                assert(out[k + 1] == y);
            }
        }
    }
}

proof fn lemma_inserted_keeps_order(listing: Seq<EntryView>, order: Seq<int>, x: int)
    requires
        in_drawing_order(listing, order),
        !order.contains(x),
    ensures
        in_drawing_order(listing, inserted(listing, order, x)),
{
    let out = inserted(listing, order, x);
    let p = slot(listing, order, x);
    lemma_slot(listing, order, x);
    assert forall|k: int, l: int| 0 <= k < l < out.len() implies comes_before(
        listing,
        #[trigger] out[k],
        #[trigger] out[l],
    ) by {
        if l < p {
            assert(comes_before(listing, order[k], order[l]));
        } else if l == p {
            assert(order.contains(order[k]));
            lemma_comes_before_total(listing, order[k], x);
        } else if k < p {
            assert(comes_before(listing, order[k], order[l - 1]));
        } else if k == p {
            if l - 1 > p {
                assert(comes_before(listing, order[p], order[l - 1]));
                lemma_comes_before_transitive(listing, x, order[p], order[l - 1]);
            }
        } else {
            assert(comes_before(listing, order[k - 1], order[l - 1]));
        }
    }
}

/// The arrangement of the first `n` entries holds exactly the positions
/// below `n` of entries that are shown, in drawing order.
pub proof fn lemma_arranged_upto(
    listing: Seq<EntryView>,
    patterns: Seq<Seq<char>>,
    show_files: bool,
    n: int,
)
    requires
        0 <= n <= listing.len(),
    ensures
        in_drawing_order(listing, arranged_upto(listing, patterns, show_files, n)),
        forall|i: int|
            arranged_upto(listing, patterns, show_files, n).contains(i) <==> (0 <= i < n
                && visible(listing[i], patterns, show_files)),
    decreases n,
{
    if n > 0 {
        let earlier = arranged_upto(listing, patterns, show_files, n - 1);
        lemma_arranged_upto(listing, patterns, show_files, n - 1);
        if visible(listing[n - 1], patterns, show_files) {
            lemma_inserted_holds(listing, earlier, n - 1);
            lemma_inserted_keeps_order(listing, earlier, n - 1);
        }
        let now = arranged_upto(listing, patterns, show_files, n);
        assert forall|i: int| now.contains(i) <==> (0 <= i < n && visible(
            listing[i],
            patterns,
            show_files,
        )) by {
            if i != n - 1 {
                assert(earlier.contains(i) <==> (0 <= i < n - 1 && visible(
                    listing[i],
                    patterns,
                    show_files,
                )));
            }
        }
    } else {
        let none = arranged_upto(listing, patterns, show_files, n);
        assert(none.len() == 0);
    }
}

/// The arrangement of a listing holds exactly the positions of the entries
/// that are shown, each once, and every position in it comes before all
/// that follow.
pub proof fn lemma_arranged_shows_the_visible_in_order(
    listing: Seq<EntryView>,
    patterns: Seq<Seq<char>>,
    show_files: bool,
)
    ensures
        in_drawing_order(listing, arranged(listing, patterns, show_files)),
        arranged(listing, patterns, show_files).no_duplicates(),
        forall|i: int|
            arranged(listing, patterns, show_files).contains(i) <==> (0 <= i < listing.len()
                && visible(listing[i], patterns, show_files)),
{
    let order = arranged(listing, patterns, show_files);
    lemma_arranged_upto(listing, patterns, show_files, listing.len() as int);
    assert forall|k: int, l: int|
        0 <= k < order.len() && 0 <= l < order.len() && k != l implies order[k] != order[l] by {
        if k < l {
            assert(comes_before(listing, order[k], order[l]));
        } else {
            assert(comes_before(listing, order[l], order[k]));
        }
        lemma_comes_before_asymmetric(listing, order[k], order[k]);
    }
}

/// Directories are drawn above files, and within each group the names
/// ascend: of two entries that are shown, the upper one is a directory or
/// the lower one is none, and where both are of one kind the lower name
/// does not sort before the upper.
pub proof fn lemma_directories_first_then_by_name(
    listing: Seq<EntryView>,
    patterns: Seq<Seq<char>>,
    show_files: bool,
    k: int,
    l: int,
)
    requires
        0 <= k < l < arranged(listing, patterns, show_files).len(),
    ensures
        ({
            let order = arranged(listing, patterns, show_files);
            let upper = listing[order[k]];
            let lower = listing[order[l]];
            &&& upper.is_dir || !lower.is_dir
            &&& upper.is_dir == lower.is_dir ==> !name_before(lower.name, upper.name)
        }),
{
    let order = arranged(listing, patterns, show_files);
    lemma_arranged_shows_the_visible_in_order(listing, patterns, show_files);
    assert(comes_before(listing, order[k], order[l]));
    lemma_comes_before_asymmetric(listing, order[k], order[l]);
    lemma_bytes_before_irreflexive(encode_utf8(listing[order[k]].name));
}

/// Positions as integers.
pub open spec fn positions(order: Seq<usize>) -> Seq<int> {
    Seq::new(order.len(), |k: int| order[k] as int)
}

proof fn lemma_inserted_at(listing: Seq<EntryView>, order: Seq<int>, x: int, p: int)
    requires
        0 <= p <= order.len(),
        forall|q: int| 0 <= q < p ==> !comes_before(listing, x, #[trigger] order[q]),
        p < order.len() ==> comes_before(listing, x, order[p]),
    ensures
        inserted(listing, order, x) == order.insert(p, x),
    decreases p,
{
    if order.len() == 0 {
        assert(order.insert(p, x) =~= seq![x]);
    } else if p == 0 {
        assert(order.insert(0, x) =~= seq![x] + order);
    } else {
        let tail = order.drop_first();
        assert(!comes_before(listing, x, order[0]));
        assert forall|q: int| 0 <= q < p - 1 implies !comes_before(
            listing,
            x,
            #[trigger] tail[q],
        ) by {
            assert(tail[q] == order[q + 1]);
        }
        lemma_inserted_at(listing, tail, x, p - 1);
        assert(order.insert(p, x) =~= seq![order[0]] + tail.insert(p - 1, x));
    }
}

/// The positions of the entries of `listing` that are shown, in the order
/// in which they are drawn.
pub fn arrange(listing: &[Entry], ignore_patterns: &[String], show_files: bool) -> (order: Vec<
    usize,
>)
    ensures
        positions(order@) == arranged(
            entry_views(listing@),
            texts(ignore_patterns@),
            show_files,
        ),
        forall|k: int| 0 <= k < order@.len() ==> order@[k] < listing@.len(),
{
    let ghost entries = entry_views(listing@);
    let ghost patterns = texts(ignore_patterns@);
    let mut order: Vec<usize> = Vec::new();
    let mut i: usize = 0;
    proof {
        assert(positions(order@) =~= arranged_upto(entries, patterns, show_files, 0));
    }
    while i < listing.len()
        invariant
            i <= listing.len(),
            entries == entry_views(listing@),
            patterns == texts(ignore_patterns@),
            positions(order@) == arranged_upto(entries, patterns, show_files, i as int),
            forall|k: int| 0 <= k < order@.len() ==> order@[k] < i,
        decreases listing.len() - i,
    {
        if is_visible(&listing[i], ignore_patterns, show_files) {
            let mut p: usize = 0;
            while p < order.len() && !precedes(listing, i, order[p])
                invariant
                    p <= order.len(),
                    i < listing.len(),
                    entries == entry_views(listing@),
                    forall|k: int| 0 <= k < order@.len() ==> order@[k] < i,
                    forall|q: int|
                        0 <= q < p ==> !comes_before(
                            entries,
                            i as int,
                            #[trigger] positions(order@)[q],
                        ),
                decreases order.len() - p,
            {
                p += 1;
            }
            proof {
                let before = positions(order@);
                assert(p < order.len() ==> before[p as int] == order@[p as int]);
                lemma_inserted_at(entries, before, i as int, p as int);
                assert(positions(order@.insert(p as int, i)) =~= before.insert(
                    p as int,
                    i as int,
                ));
            }
            order.insert(p, i);
        }
        i += 1;
    }
    order
}

} // verus!
