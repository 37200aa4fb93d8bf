//! What stops a command.
use vstd::prelude::*;
use crate::buffers::BufferIdx;

verus! {

pub enum EditorErr {
    Io(String),
    ReadOnly(BufferIdx),
    InvalidBuffer,
    Dirty(BufferIdx),
    Msg(String),
    Log(String),
    Quit,
}

#[verifier::ext_equal]
pub enum EditorErrView {
    Io(Seq<char>),
    ReadOnly(BufferIdx),
    InvalidBuffer,
    Dirty(BufferIdx),
    Msg(Seq<char>),
    Log(Seq<char>),
    Quit,
}

impl View for EditorErr {
    type V = EditorErrView;

    open spec fn view(&self) -> EditorErrView {
        match *self {
            EditorErr::Io(s) => EditorErrView::Io(s@),
            EditorErr::ReadOnly(b) => EditorErrView::ReadOnly(b),
            EditorErr::InvalidBuffer => EditorErrView::InvalidBuffer,
            EditorErr::Dirty(b) => EditorErrView::Dirty(b),
            EditorErr::Msg(s) => EditorErrView::Msg(s@),
            EditorErr::Log(s) => EditorErrView::Log(s@),
            EditorErr::Quit => EditorErrView::Quit,
        }
    }
}

/// The outcome of a command: nothing, or what stopped it.
pub open spec fn stop_of(r: Result<(), EditorErr>) -> Option<EditorErrView> {
    match r {
        Ok(_) => None,
        Err(e) => Some(e@),
    }
}

} // verus!
