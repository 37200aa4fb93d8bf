//! What the editor asks of the world outside, and what it is told.
use vstd::prelude::*;
use crate::auto_complete::Listing;
use crate::buffers::Found;

verus! {

/// What has to be done outside before a key can be carried out.
pub enum Request {
    Nothing,
    ReadClipboard,
    WriteClipboard(String),
    /// List the current directory.
    List(Listing),
    /// Look up a directory, relative to the current one.
    EnterDirectory(String),
    /// Look up a file, relative to the current directory.
    OpenFile(String),
    /// Read a file again.
    ReloadFile(String),
    /// Write a text to a file.
    WriteFile(String, String),
}

#[verifier::ext_equal]
pub enum RequestView {
    Nothing,
    ReadClipboard,
    WriteClipboard(Seq<char>),
    List(Listing),
    EnterDirectory(Seq<char>),
    OpenFile(Seq<char>),
    ReloadFile(Seq<char>),
    WriteFile(Seq<char>, Seq<char>),
}

impl View for Request {
    type V = RequestView;

    open spec fn view(&self) -> RequestView {
        match *self {
            Request::Nothing => RequestView::Nothing,
            Request::ReadClipboard => RequestView::ReadClipboard,
            Request::WriteClipboard(s) => RequestView::WriteClipboard(s@),
            Request::List(l) => RequestView::List(l),
            Request::EnterDirectory(s) => RequestView::EnterDirectory(s@),
            Request::OpenFile(s) => RequestView::OpenFile(s@),
            Request::ReloadFile(s) => RequestView::ReloadFile(s@),
            Request::WriteFile(p, s) => RequestView::WriteFile(p@, s@),
        }
    }
}

/// What stands where a directory was looked for.
pub enum DirFound {
    Missing,
    NotDirectory,
    /// The full path of the directory.
    Directory(String),
}

/// A file that was looked up: its path, that path resolved where it could be,
/// and what was found, or what went wrong.
pub struct FileFound {
    pub path: String,
    pub resolved: Option<String>,
    pub content: Result<Found, String>,
}

/// The answer to a request.
pub enum Reply {
    Nothing,
    Clipboard(Option<String>),
    Done(Result<(), String>),
    Names(Option<Vec<String>>),
    Directory(DirFound),
    File(FileFound),
    /// What a file holds now, unless it is no file.
    Reloaded(Option<Result<String, String>>),
}

/// The names of a listing.
pub open spec fn names_of(reply: Reply) -> Option<Vec<String>> {
    match reply {
        Reply::Names(v) => v,
        _ => None,
    }
}

} // verus!
