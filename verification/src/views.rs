//! Views: a buffer as it is seen through one leaf of the tree.
use vstd::prelude::*;
use crate::buffers::BufferIdx;

verus! {

#[derive(Clone, Copy, PartialEq, Eq, Structural)]
pub enum Mode {
    Normal,
    Insert,
    Visual,
}

#[derive(Clone, Copy, PartialEq, Eq, Structural)]
pub struct ViewIdx(pub usize);

/// A buffer as it is shown: where the cursor stands, in characters, which line
/// is the first on screen, and what is selected.
#[derive(Clone, Copy)]
pub struct TextView {
    pub selection: Option<(usize, usize)>,
    pub buf: BufferIdx,
    pub cursor: usize,
    pub prefered_x: usize,
    pub off: usize,
    pub mode: Mode,
}

/// A view that shows the start of a buffer.
pub open spec fn fresh_view(buf: BufferIdx) -> TextView {
    TextView { selection: None, buf, cursor: 0, prefered_x: 0, off: 0, mode: Mode::Normal }
}

impl TextView {
    pub fn new(buf: BufferIdx) -> (res: Self)
        ensures
            res == fresh_view(buf),
    {
        TextView { selection: None, buf, cursor: 0, prefered_x: 0, off: 0, mode: Mode::Normal }
    }
}

/// All views; a view is never taken out again.
pub struct Views(pub Vec<TextView>);

impl View for Views {
    type V = Seq<TextView>;

    open spec fn view(&self) -> Seq<TextView> {
        self.0@
    }
}

impl Views {
    pub fn new() -> (res: Self)
        ensures
            res@ == Seq::<TextView>::empty(),
    {
        Views(Vec::new())
    }

    pub fn get(&self, idx: ViewIdx) -> (res: &TextView)
        requires
            idx.0 < self@.len(),
        ensures
            *res == self@[idx.0 as int],
    {
        &self.0[idx.0]
    }

    pub fn get_mut(&mut self, idx: ViewIdx) -> (res: &mut TextView)
        requires
            idx.0 < old(self)@.len(),
        ensures
            *res == old(self)@[idx.0 as int],
            final(self)@ == old(self)@.update(idx.0 as int, *final(res)),
    {
        &mut self.0[idx.0]
    }

    pub fn push(&mut self, view: TextView) -> (idx: ViewIdx)
        ensures
            final(self)@ == old(self)@.push(view),
            idx.0 == old(self)@.len(),
    {
        let idx: ViewIdx = ViewIdx(self.0.len());
        self.0.push(view);
        idx
    }

    /// The same views again.
    pub fn copy(&self) -> (res: Views)
        ensures
            res@ == self@,
    {
        let mut v: Vec<TextView> = Vec::new();
        let mut i: usize = 0;
        while i < self.0.len()
            invariant
                i <= self.0@.len(),
                v@ =~= self.0@.take(i as int),
            decreases self.0@.len() - i,
        {
            v.push(self.0[i]);
            i = i + 1;
        }
        assert(v@ =~= self.0@);
        Views(v)
    }
}

} // verus!
