//! A directory tree held in memory.
//!
//! The operations of this crate read and change a [`Node`] where a program
//! would read and change the disk. A node records what the operations can
//! observe of a file system entry: its name, what kind of entry it is, the
//! text of a file, the entries of a directory in the order the file system
//! lists them, whether version control ignores it, and whether the file
//! system refuses access to it.

use vstd::prelude::*;
use vstd::string::*;
use crate::text::same_text;

verus! {

/// What kind of entry a node is.
#[derive(Clone, Copy, PartialEq, Eq, Structural, Debug)]
pub enum Kind {
    /// A regular file.
    File,
    /// A directory.
    Directory,
    /// A symbolic link that leads to no directory.
    Symlink,
    /// A symbolic link that leads to a directory. Printing follows it and
    /// draws what it leads to; a sweep never does.
    DirectoryLink,
}

/// Whether an entry of this kind is a directory to one who follows links.
pub open spec fn leads_to_directory(kind: Kind) -> bool {
    kind == Kind::Directory || kind == Kind::DirectoryLink
}

impl Kind {
    /// Whether an entry of this kind is a directory to one who follows
    /// links.
    pub fn is_dir(self) -> (directory: bool)
        ensures
            directory == leads_to_directory(self),
    {
        match self {
            Kind::Directory => true,
            Kind::DirectoryLink => true,
            _ => false,
        }
    }
}

/// One entry of a file system, with everything below it. The entries of a
/// link that leads to a directory are those of the directory.
#[derive(Debug, PartialEq, Eq)]
pub struct Node {
    /// Base name of the entry.
    pub name: String,
    /// Kind of the entry.
    pub kind: Kind,
    /// Text of a file.
    pub content: String,
    /// Entries of a directory, or of the directory that a link leads to, in
    /// the order the file system lists them.
    pub children: Vec<Node>,
    /// Version control ignore rules exclude the entry.
    pub vcs_ignored: bool,
    /// The file system refuses to list, read, write or delete the entry.
    pub locked: bool,
}

/// A [`Node`] as a mathematical value.
pub ghost struct NodeView {
    pub name: Seq<char>,
    pub kind: Kind,
    pub content: Seq<char>,
    pub children: Seq<NodeView>,
    pub vcs_ignored: bool,
    pub locked: bool,
}

/// The mathematical value of a node.
pub open spec fn node_view(n: Node) -> NodeView
    decreases n,
{
    NodeView {
        name: n.name@,
        kind: n.kind,
        content: n.content@,
        children: Seq::new(
            n.children@.len(),
            |i: int|
                if 0 <= i < n.children@.len() {
                    node_view(n.children[i])
                } else {
                    arbitrary()
                },
        ),
        vcs_ignored: n.vcs_ignored,
        locked: n.locked,
    }
}

impl View for Node {
    type V = NodeView;

    open spec fn view(&self) -> NodeView {
        node_view(*self)
    }
}

/// The mathematical values of a list of nodes.
pub open spec fn views(nodes: Seq<Node>) -> Seq<NodeView> {
    Seq::new(nodes.len(), |i: int| nodes[i]@)
}

/// The view of a node lists the views of its children.
pub proof fn lemma_view_children(n: Node)
    ensures
        n@.children == views(n.children@),
        n@.name == n.name@,
        n@.kind == n.kind,
        n@.content == n.content@,
        n@.vcs_ignored == n.vcs_ignored,
        n@.locked == n.locked,
{
    assert(n@.children =~= views(n.children@));
}

/// Whether a node can be listed: it is a directory or leads to one, and
/// the file system does not refuse.
pub open spec fn listable(node: NodeView) -> bool {
    leads_to_directory(node.kind) && !node.locked
}

/// Whether a node can be opened for its text: it neither is a directory
/// nor leads to one, and the file system does not refuse.
pub open spec fn opens(node: NodeView) -> bool {
    !leads_to_directory(node.kind) && !node.locked
}

/// Where the first entry called `name` stands in a list of entries, or the
/// length of the list if none has the name.
pub open spec fn position_of(nodes: Seq<NodeView>, name: Seq<char>) -> int
    decreases nodes.len(),
{
    if nodes.len() == 0 || nodes[0].name == name {
        0
    } else {
        1 + position_of(nodes.drop_first(), name)
    }
}

/// The position of the first entry with a name is the one before which no
/// entry has the name.
pub proof fn lemma_position_of(nodes: Seq<NodeView>, name: Seq<char>, at: int)
    requires
        0 <= at <= nodes.len(),
        forall|i: int| 0 <= i < at ==> nodes[i].name != name,
        at < nodes.len() ==> nodes[at].name == name,
    ensures
        position_of(nodes, name) == at,
    decreases at,
{
    if at > 0 {
        lemma_position_of(nodes.drop_first(), name, at - 1);
    }
}

/// The position of a name in a list with one more entry at its end.
pub proof fn lemma_position_of_push(nodes: Seq<NodeView>, last: NodeView, name: Seq<char>)
    ensures
        position_of(nodes.push(last), name) == if position_of(nodes, name) < nodes.len()
            || last.name == name {
            position_of(nodes, name)
        } else {
            nodes.len() as int + 1
        },
        0 <= position_of(nodes, name) <= nodes.len(),
    decreases nodes.len(),
{
    if nodes.len() > 0 {
        assert(nodes.push(last).drop_first() =~= nodes.drop_first().push(last));
        lemma_position_of_push(nodes.drop_first(), last, name);
    } else {
        let one = nodes.push(last);
        assert(one.drop_first() =~= Seq::<NodeView>::empty());
        assert(position_of(one.drop_first(), name) == 0);
        assert(one[0] == last);
    }
}

/// Finds the first entry called `name`.
pub fn find_child(nodes: &Vec<Node>, name: &str) -> (found: Option<usize>)
    ensures
        match found {
            Some(at) => at < nodes@.len() && at == position_of(views(nodes@), name@),
            None => position_of(views(nodes@), name@) == nodes@.len(),
        },
{
    let mut at: usize = 0;
    while at < nodes.len()
        invariant
            at <= nodes.len(),
            forall|i: int| 0 <= i < at ==> views(nodes@)[i].name != name@,
        decreases nodes.len() - at,
    {
        proof {
            lemma_view_children(nodes@[at as int]);
        }
        if same_text(nodes[at].name.as_str(), name) {
            proof {
                lemma_position_of(views(nodes@), name@, at as int);
            }
            return Some(at);
        }
        at += 1;
    }
    proof {
        lemma_position_of(views(nodes@), name@, at as int);
    }
    None
}

/// The entry that a trail of names leads to from a list of entries: at
/// each step the first entry of the name, and from there on among its
/// entries.
pub open spec fn reached(nodes: Seq<NodeView>, trail: Seq<Seq<char>>) -> Option<NodeView>
    decreases trail.len(),
{
    if trail.len() == 0 {
        None
    } else {
        let at = position_of(nodes, trail[0]);
        if 0 <= at < nodes.len() {
            if trail.len() == 1 {
                Some(nodes[at])
            } else {
                reached(nodes[at].children, trail.drop_first())
            }
        } else {
            None
        }
    }
}

/// The view of an entry that may be absent.
pub open spec fn found_view(found: Option<&Node>) -> Option<NodeView> {
    match found {
        Some(node) => Some(node@),
        None => None,
    }
}

/// The texts of a trail of names.
pub open spec fn trail_texts(trail: Seq<&str>) -> Seq<Seq<char>> {
    Seq::new(trail.len(), |i: int| trail[i]@)
}

impl Node {
    /// A regular file with the given text.
    pub fn file(name: &str, content: &str) -> (node: Node)
        ensures
            node@ == (NodeView {
                name: name@,
                kind: Kind::File,
                content: content@,
                children: Seq::empty(),
                vcs_ignored: false,
                locked: false,
            }),
    {
        let node = Node {
            name: String::from_str(name),
            kind: Kind::File,
            content: String::from_str(content),
            children: Vec::new(),
            vcs_ignored: false,
            locked: false,
        };
        proof {
            lemma_view_children(node);
            assert(node@.children =~= Seq::<NodeView>::empty());
        }
        node
    }

    /// A directory with the given entries.
    pub fn directory(name: &str, children: Vec<Node>) -> (node: Node)
        ensures
            node@ == (NodeView {
                name: name@,
                kind: Kind::Directory,
                content: Seq::empty(),
                children: views(children@),
                vcs_ignored: false,
                locked: false,
            }),
    {
        let node = Node {
            name: String::from_str(name),
            kind: Kind::Directory,
            content: String::new(),
            children,
            vcs_ignored: false,
            locked: false,
        };
        proof {
            lemma_view_children(node);
        }
        node
    }

    /// A symbolic link that leads to a directory with the given entries.
    pub fn directory_link(name: &str, children: Vec<Node>) -> (node: Node)
        ensures
            node@ == (NodeView {
                name: name@,
                kind: Kind::DirectoryLink,
                content: Seq::empty(),
                children: views(children@),
                vcs_ignored: false,
                locked: false,
            }),
    {
        let node = Node {
            name: String::from_str(name),
            kind: Kind::DirectoryLink,
            content: String::new(),
            children,
            vcs_ignored: false,
            locked: false,
        };
        proof {
            lemma_view_children(node);
        }
        node
    }

    /// A symbolic link that leads to no directory.
    pub fn symlink(name: &str) -> (node: Node)
        ensures
            node@ == (NodeView {
                name: name@,
                kind: Kind::Symlink,
                content: Seq::empty(),
                children: Seq::empty(),
                vcs_ignored: false,
                locked: false,
            }),
    {
        let node = Node {
            name: String::from_str(name),
            kind: Kind::Symlink,
            content: String::new(),
            children: Vec::new(),
            vcs_ignored: false,
            locked: false,
        };
        proof {
            lemma_view_children(node);
            assert(node@.children =~= Seq::<NodeView>::empty());
        }
        node
    }

    /// The same entry, excluded by the ignore rules of version control.
    pub fn ignored_by_vcs(self) -> (node: Node)
        ensures
            node@ == (NodeView { vcs_ignored: true, ..self@ }),
    {
        proof {
            lemma_view_children(self);
        }
        let mut node = self;
        node.vcs_ignored = true;
        proof {
            lemma_view_children(node);
        }
        node
    }

    /// The same entry, with the file system refusing access to it.
    pub fn refusing_access(self) -> (node: Node)
        ensures
            node@ == (NodeView { locked: true, ..self@ }),
    {
        proof {
            lemma_view_children(self);
        }
        let mut node = self;
        node.locked = true;
        proof {
            lemma_view_children(node);
        }
        node
    }

    /// The first entry of this directory that is called `name`.
    pub fn child(&self, name: &str) -> (found: Option<&Node>)
        ensures
            found_view(found) == reached(self@.children, seq![name@]),
    {
        proof {
            lemma_view_children(*self);
        }
        match find_child(&self.children, name) {
            Some(at) => Some(&self.children[at]),
            None => None,
        }
    }

    /// The entry below this directory that a trail of names leads to.
    pub fn find(&self, trail: &[&str]) -> (found: Option<&Node>)
        ensures
            found_view(found) == reached(self@.children, trail_texts(trail@)),
    {
        let ghost names = trail_texts(trail@);
        if trail.len() == 0 {
            return None;
        }
        proof {
            lemma_view_children(*self);
        }
        let mut at: &Node = match find_child(&self.children, trail[0]) {
            Some(first) => &self.children[first],
            None => {
                return None;
            },
        };
        let mut i: usize = 1;
        proof {
            assert(names.drop_first() =~= names.skip(1));
        }
        while i < trail.len()
            invariant
                1 <= i <= trail.len(),
                names == trail_texts(trail@),
                reached(self@.children, names) == if i < trail.len() {
                    reached(at@.children, names.skip(i as int))
                } else {
                    Some(at@)
                },
            decreases trail.len() - i,
        {
            proof {
                lemma_view_children(*at);
                assert(names.skip(i as int)[0] == trail@[i as int]@);
                assert(names.skip(i as int).drop_first() =~= names.skip(i + 1));
            }
            match find_child(&at.children, trail[i]) {
                Some(next) => {
                    at = &at.children[next];
                },
                None => {
                    return None;
                },
            }
            i += 1;
        }
        Some(at)
    }
}

/// A path, and what the file system holds there.
#[derive(Debug, PartialEq, Eq)]
pub struct Location {
    /// The path as it was written.
    pub text: String,
    /// The entry at the path, if there is one.
    pub node: Option<Node>,
}

/// A [`Location`] as a mathematical value.
pub ghost struct LocationView {
    pub text: Seq<char>,
    pub node: Option<NodeView>,
}

impl View for Location {
    type V = LocationView;

    open spec fn view(&self) -> LocationView {
        LocationView {
            text: self.text@,
            node: match self.node {
                Some(n) => Some(n@),
                None => None,
            },
        }
    }
}

impl Location {
    /// A path at which nothing exists.
    pub fn missing(text: &str) -> (location: Location)
        ensures
            location@ == (LocationView { text: text@, node: None }),
    {
        Location { text: String::from_str(text), node: None }
    }

    /// A path at which `node` lies.
    pub fn holding(text: &str, node: Node) -> (location: Location)
        ensures
            location@ == (LocationView { text: text@, node: Some(node@) }),
    {
        Location { text: String::from_str(text), node: Some(node) }
    }

    /// A path at which a directory with the given entries lies.
    pub fn directory(text: &str, children: Vec<Node>) -> (location: Location)
        ensures
            location@ == (LocationView {
                text: text@,
                node: Some(
                    NodeView {
                        name: text@,
                        kind: Kind::Directory,
                        content: Seq::empty(),
                        children: views(children@),
                        vcs_ignored: false,
                        locked: false,
                    },
                ),
            }),
    {
        Location { text: String::from_str(text), node: Some(Node::directory(text, children)) }
    }

    /// The entry below the path that a trail of names leads to.
    pub fn find(&self, trail: &[&str]) -> (found: Option<&Node>)
        ensures
            found_view(found) == match self@.node {
                Some(node) => reached(node.children, trail_texts(trail@)),
                None => None,
            },
    {
        match &self.node {
            Some(node) => node.find(trail),
            None => None,
        }
    }

    /// Whether anything exists at the path.
    pub fn is_present(&self) -> (there: bool)
        ensures
            there == self@.node is Some,
    {
        self.node.is_some()
    }

    /// Whether the path holds a directory or a link that leads to one.
    pub fn is_dir(&self) -> (directory: bool)
        ensures
            directory == (self@.node is Some && leads_to_directory(self@.node->0.kind)),
    {
        match &self.node {
            Some(node) => {
                proof {
                    lemma_view_children(*node);
                }
                node.kind.is_dir()
            },
            None => false,
        }
    }
}

/// The path of an entry called `name` inside the directory at `dir`: the
/// two with a slash between them, unless `dir` is empty or ends in a slash
/// already.
pub open spec fn child_path(dir: Seq<char>, name: Seq<char>) -> Seq<char> {
    if dir.len() == 0 || dir.last() == '/' {
        dir + name
    } else {
        dir + seq!['/'] + name
    }
}

/// The path of an entry called `name` inside the directory at `dir`.
pub fn join_path(dir: &str, name: &str) -> (path: String)
    ensures
        path@ == child_path(dir@, name@),
{
    let length = dir.unicode_len();
    let mut path = String::from_str(dir);
    if length > 0 && dir.get_char(length - 1) != '/' {
        path.append("/");
        proof {
            reveal_strlit("/");
            assert("/"@ =~= seq!['/']);
        }
    }
    path.append(name);
    path
}

} // verus!
