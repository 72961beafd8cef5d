//! The ways an operation on a tree can fail.

use vstd::prelude::*;
use vstd::string::*;

verus! {

/// Why an operation was refused or broke off.
#[derive(Debug, Clone, PartialEq, Eq)]
pub enum TreeError {
    /// Nothing exists at the path; the payload is the path as it was given.
    PathMissing(String),
    /// The path exists but is no directory; the payload is the path.
    NotADirectory(String),
    /// The file system refused to read, write or delete; the payload names
    /// the action and the path.
    Io(String),
    /// Any other failure; the payload says what failed.
    Other(String),
}

/// A [`TreeError`] with its texts as sequences of characters.
pub ghost enum TreeErrorView {
    PathMissing(Seq<char>),
    NotADirectory(Seq<char>),
    Io(Seq<char>),
    Other(Seq<char>),
}

impl View for TreeError {
    type V = TreeErrorView;

    open spec fn view(&self) -> TreeErrorView {
        match *self {
            TreeError::PathMissing(p) => TreeErrorView::PathMissing(p@),
            TreeError::NotADirectory(p) => TreeErrorView::NotADirectory(p@),
            TreeError::Io(m) => TreeErrorView::Io(m@),
            TreeError::Other(m) => TreeErrorView::Other(m@),
        }
    }
}

/// The text shown to a person for an error.
pub open spec fn message_of(e: TreeErrorView) -> Seq<char> {
    match e {
        TreeErrorView::PathMissing(p) => "Path `"@ + p + "` does not exist"@,
        TreeErrorView::NotADirectory(p) => "Path `"@ + p + "` is not a directory"@,
        TreeErrorView::Io(m) => m,
        TreeErrorView::Other(m) => m,
    }
}

/// The view of a result that carries nothing or an error.
pub open spec fn unit_view(r: Result<(), TreeError>) -> Result<(), TreeErrorView> {
    match r {
        Ok(()) => Ok(()),
        Err(e) => Err(e@),
    }
}

/// The view of a result that carries a count or an error.
pub open spec fn count_view(r: Result<u64, TreeError>) -> Result<u64, TreeErrorView> {
    match r {
        Ok(n) => Ok(n),
        Err(e) => Err(e@),
    }
}

impl TreeError {
    /// The text shown to a person for this error.
    pub fn message(&self) -> (text: String)
        ensures
            text@ == message_of(self@),
    {
        match self {
            TreeError::PathMissing(p) => {
                let mut text = String::from_str("Path `");
                text.append(p.as_str());
                text.append("` does not exist");
                text
            },
            TreeError::NotADirectory(p) => {
                let mut text = String::from_str("Path `");
                text.append(p.as_str());
                text.append("` is not a directory");
                text
            },
            TreeError::Io(m) => m.clone(),
            TreeError::Other(m) => m.clone(),
        }
    }
}

} // verus!
