//! Buffers: a text, the file it came from, and the edits made to it.
use vstd::prelude::*;
use ropey::Rope;
use std::collections::VecDeque;
use crate::strings;
use crate::text;

verus! {

#[derive(Clone, Copy, PartialEq, Eq, Structural)]
pub struct BufferIdx {
    pub idx: usize,
}

/// The number of the buffer that is always there and belongs to no file.
pub const SCRATCH: usize = 0;

/// The file of the buffer may not be written.
pub const READ_ONLY: u64 = 1;

/// The buffer belongs to no file and is never saved.
pub const IS_SCRATCH: u64 = 2;

/// The file of the buffer was not there when the buffer was made.
pub const NEW_FILE: u64 = 4;

/// No view may be switched to the buffer.
pub const NON_NAVIGATABLE: u64 = 8;

/// A change of a text, as it was made.
pub enum Edit {
    Insert { idx: usize, text: String },
    Delete { idx: usize, text: String },
}

#[verifier::ext_equal]
pub enum EditView {
    Insert { idx: int, text: Seq<char> },
    Delete { idx: int, text: Seq<char> },
}

impl View for Edit {
    type V = EditView;

    open spec fn view(&self) -> EditView {
        match *self {
            Edit::Insert { idx, text } => EditView::Insert { idx: idx as int, text: text@ },
            Edit::Delete { idx, text } => EditView::Delete { idx: idx as int, text: text@ },
        }
    }
}

pub open spec fn edit_views(s: Seq<Edit>) -> Seq<EditView> {
    s.map_values(|e: Edit| e@)
}

/// What was found where a file should be.
pub enum Found {
    /// Not a file that can be read.
    Missing,
    /// Its content, and whether it may only be read.
    Content(String, bool),
}

pub struct Buffer {
    pub generation: u64,
    pub flags: u64,
    pub file: Option<String>,
    pub buf: Rope,
    pub last_off: usize,
    pub last_cursor: usize,
    pub undo: Vec<Edit>,
    pub redo: Vec<Edit>,
}

#[verifier::ext_equal]
pub struct BufferView {
    pub generation: u64,
    pub flags: u64,
    pub file: Option<Seq<char>>,
    pub text: Seq<char>,
    pub last_off: usize,
    pub last_cursor: usize,
    pub undo: Seq<EditView>,
    pub redo: Seq<EditView>,
}

impl View for Buffer {
    type V = BufferView;

    open spec fn view(&self) -> BufferView {
        BufferView {
            generation: self.generation,
            flags: self.flags,
            file: strings::option_text(self.file),
            text: text::rope_text(self.buf),
            last_off: self.last_off,
            last_cursor: self.last_cursor,
            undo: edit_views(self.undo@),
            redo: edit_views(self.redo@),
        }
    }
}

impl BufferView {
    pub open spec fn has_flag(self, flag: u64) -> bool {
        self.flags & flag != 0
    }

    /// A buffer for a path, as far as something was found there.
    pub open spec fn loaded(path: Option<Seq<char>>, flags: u64, found: Found) -> BufferView {
        BufferView {
            generation: 0,
            flags: match (path, found) {
                (Some(_), Found::Content(_, true)) => flags | READ_ONLY,
                (Some(_), Found::Content(_, false)) => flags,
                _ => flags | NEW_FILE,
            },
            file: path,
            text: match (path, found) {
                (Some(_), Found::Content(s, _)) => s@,
                _ => Seq::empty(),
            },
            last_off: 0,
            last_cursor: 0,
            undo: Seq::empty(),
            redo: Seq::empty(),
        }
    }

    /// Without its text and its edits; flags and path stay.
    pub open spec fn emptied(self) -> BufferView {
        BufferView { text: Seq::empty(), undo: Seq::empty(), redo: Seq::empty(), ..self }
    }

    /// With a text put in before position `at`, and that place remembered.
    pub open spec fn with_inserted(self, off: usize, at: usize, s: Seq<char>) -> BufferView {
        BufferView {
            last_cursor: at,
            last_off: off,
            text: self.text.take(at as int) + s + self.text.skip(at as int),
            ..self
        }
    }
}

pub proof fn lemma_insert_one(s: Seq<char>, at: int, c: char)
    requires
        0 <= at <= s.len(),
    ensures
        s.insert(at, c) == s.take(at) + seq![c] + s.skip(at),
{
    assert(s.insert(at, c) =~= s.take(at) + seq![c] + s.skip(at));
}

impl Buffer {
    pub fn check_flag(&self, flag: u64) -> (res: bool)
        ensures
            res == self@.has_flag(flag),
    {
        self.flags & flag != 0
    }

    /// A buffer for a path, from what was found there.
    pub fn new(path: Option<String>, flags: u64, found: Found) -> (res: Buffer)
        ensures
            res@ == BufferView::loaded(strings::option_text(path), flags, found),
    {
        let mut f: u64 = flags;
        let buf: Rope = if path.is_some() {
            match &found {
                Found::Content(content, read_only) => {
                    if *read_only {
                        f = f | READ_ONLY;
                    }
                    text::rope_from_str(content.as_str())
                },
                Found::Missing => {
                    f = f | NEW_FILE;
                    text::rope_new()
                },
            }
        } else {
            f = f | NEW_FILE;
            text::rope_new()
        };
        let res: Buffer = Buffer {
            generation: 0,
            flags: f,
            file: path,
            buf,
            last_off: 0,
            last_cursor: 0,
            undo: Vec::new(),
            redo: Vec::new(),
        };
        assert(res@ =~= BufferView::loaded(strings::option_text(path), flags, found));
        res
    }

    fn partial_reset(&mut self)
        ensures
            final(self)@ == old(self)@.emptied(),
    {
        self.buf = text::rope_new();
        self.undo = Vec::new();
        self.redo = Vec::new();
        assert(self@ =~= old(self)@.emptied());
    }

    pub fn insert(&mut self, off: usize, cursor: usize, c: char)
        requires
            cursor <= old(self)@.text.len(),
        ensures
            final(self)@ == old(self)@.with_inserted(off, cursor, seq![c]),
    {
        proof {
            lemma_insert_one(self@.text, cursor as int, c);
        }
        self.last_cursor = cursor;
        self.last_off = off;
        text::rope_insert_char(&mut self.buf, cursor, c);
    }

    pub fn insert_string(&mut self, off: usize, cursor: usize, s: &str)
        requires
            cursor <= old(self)@.text.len(),
        ensures
            final(self)@ == old(self)@.with_inserted(off, cursor, s@),
    {
        let ghost before = self@;
        self.last_cursor = cursor;
        self.last_off = off;
        let chars: Vec<char> = strings::chars_of(s);
        let mut k: usize = chars.len();
        assert(s@.skip(k as int) =~= Seq::<char>::empty());
        assert(before.text.take(cursor as int) + s@.skip(k as int) + before.text.skip(cursor as int)
            =~= before.text);
        while k > 0
            invariant
                chars@ == s@,
                k <= s@.len(),
                cursor <= before.text.len(),
                self@ == before.with_inserted(off, cursor, s@.skip(k as int)),
            decreases k,
        {
            k = k - 1;
            let ghost now = self@.text;
            text::rope_insert_char(&mut self.buf, cursor, chars[k]);
            assert(self@.text =~= before.text.take(cursor as int) + s@.skip(k as int)
                + before.text.skip(cursor as int));
        }
        assert(s@.skip(0) =~= s@);
    }
}

/// All buffers. The slot of a closed one is taken again, the one that was
/// closed first before the others.
pub struct Buffers {
    pub data: Vec<Buffer>,
    pub free: VecDeque<BufferIdx>,
    pub path_map: Vec<(String, BufferIdx)>,
}

#[verifier::ext_equal]
pub struct BuffersView {
    pub data: Seq<BufferView>,
    pub free: Seq<BufferIdx>,
    pub path_map: Map<Seq<char>, BufferIdx>,
}

pub open spec fn buffer_views(s: Seq<Buffer>) -> Seq<BufferView> {
    s.map_values(|b: Buffer| b@)
}

pub open spec fn has_path(s: Seq<(String, BufferIdx)>, p: Seq<char>, i: int) -> bool {
    0 <= i < s.len() && s[i].0@ == p
}

/// The entries of a list as a map.
pub open spec fn entries(s: Seq<(String, BufferIdx)>) -> Map<Seq<char>, BufferIdx> {
    Map::new(
        |p: Seq<char>| exists|i: int| has_path(s, p, i),
        |p: Seq<char>| s[choose|i: int| has_path(s, p, i)].1,
    )
}

impl View for Buffers {
    type V = BuffersView;

    open spec fn view(&self) -> BuffersView {
        BuffersView {
            data: buffer_views(self.data@),
            free: self.free@,
            path_map: entries(self.path_map@),
        }
    }
}

impl BuffersView {
    pub open spec fn has(self, b: BufferIdx) -> bool {
        b.idx < self.data.len()
    }

    pub open spec fn at(self, b: BufferIdx) -> BufferView {
        self.data[b.idx as int]
    }

    pub open spec fn with(self, b: BufferIdx, v: BufferView) -> BuffersView {
        BuffersView { data: self.data.update(b.idx as int, v), ..self }
    }

    /// The slot that the next buffer takes.
    pub open spec fn next_idx(self) -> BufferIdx {
        if self.free.len() == 0 {
            BufferIdx { idx: self.data.len() as usize }
        } else {
            self.free[0]
        }
    }

    /// With one more buffer, found again under its resolved path if it has one.
    pub open spec fn pushed(self, b: BufferView, resolved: Option<Seq<char>>) -> BuffersView {
        BuffersView {
            data: if self.free.len() == 0 {
                self.data.push(b)
            } else {
                self.data.update(self.free[0].idx as int, b)
            },
            free: if self.free.len() == 0 {
                self.free
            } else {
                self.free.skip(1)
            },
            path_map: match (b.file, resolved) {
                (Some(_), Some(p)) => self.path_map.insert(p, self.next_idx()),
                _ => self.path_map,
            },
        }
    }

    /// With one buffer closed: emptied, of the next generation, its slot free.
    pub open spec fn closed(self, b: BufferIdx) -> BuffersView {
        let v = self.at(b);
        BuffersView {
            free: self.free.push(b),
            ..self.with(b, (BufferView { generation: (v.generation + 1) as u64, ..v }).emptied())
        }
    }
}

impl Buffers {
    /// Free slots and listed buffers are slots, and no path is listed twice.
    pub open spec fn wf(self) -> bool {
        &&& forall|k: int|
            0 <= k < self.path_map@.len() ==> self@.has((#[trigger] self.path_map@[k]).1)
        &&& forall|k: int| 0 <= k < self.free@.len() ==> self@.has(#[trigger] self.free@[k])
        &&& forall|i: int, j: int|
            0 <= i < self.path_map@.len() && 0 <= j < self.path_map@.len() && i != j
                ==> #[trigger] self.path_map@[i].0@ != #[trigger] self.path_map@[j].0@
    }

    pub fn new() -> (res: Self)
        ensures
            res.wf(),
            res@.data.len() == 0,
            res@.free.len() == 0,
            res@.path_map == Map::<Seq<char>, BufferIdx>::empty(),
    {
        let res: Buffers = Buffers {
            data: Vec::new(),
            free: VecDeque::new(),
            path_map: Vec::new(),
        };
        assert(res@.path_map =~= Map::<Seq<char>, BufferIdx>::empty()) by {
            assert forall|p: Seq<char>| !res@.path_map.dom().contains(p) by {}
        }
        res
    }

    pub fn get(&self, idx: BufferIdx) -> (res: &Buffer)
        requires
            self@.has(idx),
        ensures
            res@ == self@.at(idx),
    {
        &self.data[idx.idx]
    }

    pub fn get_mut(&mut self, idx: BufferIdx) -> (res: &mut Buffer)
        requires
            old(self)@.has(idx),
        ensures
            res@ == old(self)@.at(idx),
            final(self)@ == old(self)@.with(idx, final(res)@),
            old(self).wf() ==> final(self).wf(),
    {
        proof {
            lemma_buffer_views_update(self.data@, idx.idx as int);
        }
        &mut self.data[idx.idx]
    }

    fn record(&mut self, path: String, idx: BufferIdx)
        requires
            old(self).wf(),
            old(self)@.has(idx),
        ensures
            final(self).wf(),
            final(self)@ == (BuffersView {
                path_map: old(self)@.path_map.insert(path@, idx),
                ..old(self)@
            }),
    {
        let ghost before = self.path_map@;
        let mut i: usize = 0;
        while i < self.path_map.len()
            invariant
                i <= self.path_map@.len(),
                *self == *old(self),
                old(self)@.has(idx),
                before == self.path_map@,
                self.wf(),
                forall|k: int| 0 <= k < i ==> (#[trigger] before[k]).0@ != path@,
            decreases self.path_map@.len() - i,
        {
            if self.path_map[i].0 == path {
                self.path_map[i] = (path, idx);
                proof {
                    let after = self.path_map@;
                    assert forall|p: Seq<char>|
                        entries(after).dom().contains(p) <==> entries(before).insert(
                            path@,
                            idx,
                        ).dom().contains(p) by {
                        assert(has_path(after, path@, i as int));
                        if exists|k: int| has_path(before, p, k) {
                            let k = choose|k: int| has_path(before, p, k);
                            assert(has_path(after, p, k));
                        }
                        if exists|k: int| has_path(after, p, k) {
                            let k = choose|k: int| has_path(after, p, k);
                            assert(has_path(before, p, k));
                        }
                    }
                    assert forall|p: Seq<char>| entries(after).dom().contains(p) implies entries(
                        after,
                    )[p] == entries(before).insert(path@, idx)[p] by {
                        let a = choose|k: int| has_path(after, p, k);
                        assert(has_path(after, p, a));
                        assert(has_path(before, p, a));
                        let b = choose|k: int| has_path(before, p, k);
                        assert(has_path(before, p, b));
                        assert(before[a].0@ == before[b].0@);
                        assert(a == b);
                        if p == path@ {
                            assert(before[i as int].0@ == path@);
                            assert(a == i);
                        }
                    }
                    assert(entries(after) =~= entries(before).insert(path@, idx));
                    assert forall|a: int, b: int|
                        0 <= a < after.len() && 0 <= b < after.len() && a != b implies
                        #[trigger] after[a].0@ != #[trigger] after[b].0@ by {
                        assert(before[a].0@ != before[b].0@);
                    }
                    assert forall|k: int| 0 <= k < self.free@.len() implies self@.has(
                        #[trigger] self.free@[k],
                    ) by {
                        assert(old(self)@.has(old(self).free@[k]));
                    }
                    assert forall|k: int| 0 <= k < after.len() implies self@.has(
                        (#[trigger] after[k]).1,
                    ) by {
                        assert(old(self)@.has(before[k].1));
                    }
                }
                return ;
            }
            i = i + 1;
        }
        self.path_map.push((path, idx));
        proof {
            let after = self.path_map@;
            let n = before.len() as int;
            assert forall|p: Seq<char>|
                entries(after).dom().contains(p) <==> entries(before).insert(
                    path@,
                    idx,
                ).dom().contains(p) by {
                assert(has_path(after, path@, n));
                if exists|k: int| has_path(before, p, k) {
                    let k = choose|k: int| has_path(before, p, k);
                    assert(has_path(after, p, k));
                }
                if exists|k: int| has_path(after, p, k) {
                    let k = choose|k: int| has_path(after, p, k);
                    if k < n {
                        assert(has_path(before, p, k));
                    }
                }
            }
            assert forall|p: Seq<char>| entries(after).dom().contains(p) implies entries(after)[p]
                == entries(before).insert(path@, idx)[p] by {
                let a = choose|k: int| has_path(after, p, k);
                assert(has_path(after, p, a));
                if p == path@ {
                    if a < n {
                        assert(before[a].0@ == path@);
                    }
                } else {
                    assert(has_path(before, p, a));
                    let b = choose|k: int| has_path(before, p, k);
                    assert(has_path(before, p, b));
                    assert(before[a].0@ == before[b].0@);
                    assert(a == b);
                }
            }
            assert(entries(after) =~= entries(before).insert(path@, idx));
            assert forall|a: int, b: int|
                0 <= a < after.len() && 0 <= b < after.len() && a != b implies
                #[trigger] after[a].0@ != #[trigger] after[b].0@ by {
                if a < n && b < n {
                    assert(before[a].0@ != before[b].0@);
                } else if a < n {
                    assert(before[a].0@ != path@);
                } else {
                    assert(before[b].0@ != path@);
                }
            }
            assert forall|k: int| 0 <= k < self.free@.len() implies self@.has(
                #[trigger] self.free@[k],
            ) by {
                assert(old(self)@.has(old(self).free@[k]));
            }
            assert forall|k: int| 0 <= k < after.len() implies self@.has(
                (#[trigger] after[k]).1,
            ) by {
                if k < n {
                    assert(old(self)@.has(before[k].1));
                }
            }
        }
    }

    /// Takes a buffer in. `resolved` is the full path of its file, where there
    /// is one and it could be resolved.
    pub fn push(&mut self, buf: Buffer, resolved: Option<String>) -> (idx: BufferIdx)
        requires
            old(self).wf(),
        ensures
            final(self).wf(),
            final(self)@ == old(self)@.pushed(buf@, strings::option_text(resolved)),
            idx == old(self)@.next_idx(),
            final(self)@.has(idx),
    {
        let ghost before = *self;
        let ghost v = buf@;
        let has_file: bool = buf.file.is_some();
        let idx: BufferIdx = if self.free.len() == 0 {
            let idx: BufferIdx = BufferIdx { idx: self.data.len() };
            self.data.push(buf);
            assert(buffer_views(self.data@) =~= before@.data.push(v));
            idx
        } else {
            assert(self@.has(self.free@[0]));
            let idx: BufferIdx = self.free.pop_front().unwrap();
            self.data[idx.idx] = buf;
            assert(buffer_views(self.data@) =~= before@.data.update(idx.idx as int, v));
            assert(self.free@ =~= before.free@.skip(1));
            idx
        };
        proof {
            assert forall|k: int| 0 <= k < self.free@.len() implies self@.has(
                #[trigger] self.free@[k],
            ) by {
                if before.free@.len() == 0 {
                    assert(before@.has(before.free@[k]));
                } else {
                    assert(before@.has(before.free@[k + 1]));
                }
            }
            assert forall|k: int| 0 <= k < self.path_map@.len() implies self@.has(
                (#[trigger] self.path_map@[k]).1,
            ) by {
                assert(before@.has(before.path_map@[k].1));
            }
        }
        match resolved {
            Some(p) => {
                if has_file {
                    self.record(p, idx);
                }
            },
            None => {},
        }
        assert(self@ =~= before@.pushed(v, strings::option_text(resolved)));
        idx
    }

    /// The buffer whose file resolved to the given path.
    pub fn get_by_path(&self, path: &String) -> (res: Option<BufferIdx>)
        requires
            self.wf(),
        ensures
            match res {
                Some(b) => self@.path_map.contains_pair(path@, b) && self@.has(b),
                None => !self@.path_map.contains_key(path@),
            },
    {
        let ghost s = self.path_map@;
        let mut i: usize = 0;
        while i < self.path_map.len()
            invariant
                i <= self.path_map@.len(),
                s == self.path_map@,
                self.wf(),
                forall|k: int| 0 <= k < i ==> (#[trigger] s[k]).0@ != path@,
            decreases self.path_map@.len() - i,
        {
            if self.path_map[i].0 == *path {
                proof {
                    assert(has_path(s, path@, i as int));
                    let k = choose|k: int| has_path(s, path@, k);
                    assert(has_path(s, path@, k));
                    assert(s[k].0@ == s[i as int].0@);
                    assert(self@.has(s[i as int].1));
                }
                return Some(self.path_map[i].1);
            }
            i = i + 1;
        }
        assert(!entries(s).contains_key(path@)) by {
            if exists|k: int| has_path(s, path@, k) {
                let k = choose|k: int| has_path(s, path@, k);
                assert(s[k].0@ == path@);
            }
        }
        None
    }

    /// Closes a buffer: it loses its text, and its slot is free.
    pub fn remove(&mut self, idx: BufferIdx)
        requires
            old(self).wf(),
            old(self)@.has(idx),
            old(self)@.at(idx).generation < u64::MAX,
        ensures
            final(self).wf(),
            final(self)@ == old(self)@.closed(idx),
    {
        let ghost before = *self;
        let buffer: &mut Buffer = self.get_mut(idx);
        buffer.generation = buffer.generation + 1;
        buffer.partial_reset();
        let ghost mid = *self;
        self.free.push_back(idx);
        proof {
            assert forall|k: int| 0 <= k < self.free@.len() implies self@.has(
                #[trigger] self.free@[k],
            ) by {
                if k < mid.free@.len() {
                    assert(mid@.has(mid.free@[k]));
                }
            }
            assert forall|k: int| 0 <= k < self.path_map@.len() implies self@.has(
                (#[trigger] self.path_map@[k]).1,
            ) by {
                assert(mid@.has(mid.path_map@[k].1));
            }
            assert(self@ =~= before@.closed(idx));
        }
    }

    pub fn len(&self) -> (res: usize)
        ensures
            res == self@.data.len(),
    {
        self.data.len()
    }
}

proof fn lemma_buffer_views_update(s: Seq<Buffer>, i: int)
    requires
        0 <= i < s.len(),
    ensures
        forall|v: Buffer|
            buffer_views(#[trigger] s.update(i, v)) == buffer_views(s).update(i, v@),
{
    assert forall|v: Buffer|
        buffer_views(#[trigger] s.update(i, v)) == buffer_views(s).update(i, v@) by {
        assert(buffer_views(s.update(i, v)) =~= buffer_views(s).update(i, v@));
    }
}

/// A buffer that was put in under a path is found under it, and holds what
/// was put in; no other path leads elsewhere than before.
pub proof fn law_pushed_found(b: BuffersView, v: BufferView, path: Seq<char>, other: Seq<char>)
    requires
        v.file is Some,
        b.data.len() < usize::MAX,
        b.free.len() > 0 ==> b.has(b.free[0]),
        other != path,
    ensures
        ({
            let g = b.pushed(v, Some(path));
            &&& g.path_map.contains_key(path)
            &&& g.at(g.path_map[path]) == v
            &&& g.path_map.contains_key(other) == b.path_map.contains_key(other)
            &&& b.path_map.contains_key(other) ==> g.path_map[other] == b.path_map[other]
        }),
{
}

/// The slot of a closed buffer is taken again before a new one is, the one
/// that was closed first before the others.
pub proof fn law_slot_reused(b: BuffersView, i: BufferIdx, v: BufferView)
    requires
        b.has(i),
        b.free.len() == 0,
    ensures
        b.closed(i).next_idx() == i,
        b.closed(i).pushed(v, None).data == b.data.update(i.idx as int, v),
        b.closed(i).pushed(v, None).free.len() == 0,
{
    assert(b.closed(i).pushed(v, None).data =~= b.data.update(i.idx as int, v));
}

} // verus!
